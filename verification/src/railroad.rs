//! Shunting-yard parser: turns the token stream into a linearized syntax tree
//! stored in evaluation (post-order) order, respecting the precedence
//! grouping > quantifier > concatenation > alternation.

use vstd::prelude::*;

verus! {

use crate::tokenize::{LiteralType, QuantifierType, Token, TokenType, spec_precedence, spec_token};
use vstd::string::StringExecFns;

/// A syntactic fault, carrying the byte offset of the offending token.
#[derive(Debug, Clone, Copy, PartialEq, Eq, Structural)]
pub enum SyntaxError {
    /// `)` without a matching opener.
    UnmatchedGroupClosure(usize),
    /// `(` still open at the end of the pattern.
    UnclosedGroup(usize),
    /// A quantifier with nothing to repeat.
    MissingQuantifierOperand(usize),
    /// A binary operator missing its left- or right-hand side.
    MissingBinaryOperand(usize),
    /// A group that closed over an empty operand stack.
    MissingGroupContents(usize),
    /// A manual character class with a decreasing range, such as `[z-a]`.
    InvalidCharacterRange(usize),
}

/// A reference to a node of the tree: the index of the node in the sequence,
/// as handed out by `Ast::add`. Child references of an operator node always
/// point to earlier indices, so the sequence is acyclic.
#[derive(Debug, PartialEq, Eq, Structural, Clone, Copy)]
pub struct AstRef(pub usize);

#[derive(Debug, PartialEq, Clone, Copy)]
pub enum AstNode {
    Alternation(AstRef, AstRef),
    Cons(AstRef, AstRef),
    Group(AstRef),
    Quantifier(QuantifierType, AstRef),
    Literal(LiteralType, Token),
}

/// The syntax tree: nodes in evaluation order, operands before the operator
/// that consumes them.
#[derive(Debug, PartialEq)]
pub struct Ast(pub Vec<AstNode>);

impl View for Ast {
    type V = Seq<AstNode>;

    open spec fn view(&self) -> Seq<AstNode> {
        self.0@
    }
}

/// Pops the operands of an operator token from the reference stack and forms
/// its node: two for concatenation and alternation; an open group is reported
/// as left unclosed.
pub open spec fn spec_operator_node(out: Seq<AstRef>, op: Token) -> Result<
    (AstNode, Seq<AstRef>),
    SyntaxError,
> {
    match op.kind {
        TokenType::Cons => {
            if out.len() < 2 {
                Err(SyntaxError::MissingBinaryOperand(op.position.0))
            } else {
                Ok((AstNode::Cons(out[out.len() - 2], out.last()), out.drop_last().drop_last()))
            }
        },
        TokenType::Alternation => {
            if out.len() < 2 {
                Err(SyntaxError::MissingBinaryOperand(op.position.0))
            } else {
                Ok(
                    (
                        AstNode::Alternation(out[out.len() - 2], out.last()),
                        out.drop_last().drop_last(),
                    ),
                )
            }
        },
        TokenType::Quantifier(q) => {
            if out.len() < 1 {
                Err(SyntaxError::MissingQuantifierOperand(op.position.0))
            } else {
                Ok((AstNode::Quantifier(q, out.last()), out.drop_last()))
            }
        },
        TokenType::CloseGroup => {
            if out.len() < 1 {
                Err(SyntaxError::MissingGroupContents(op.position.0))
            } else {
                Ok((AstNode::Group(out.last()), out.drop_last()))
            }
        },
        TokenType::OpenGroup => Err(SyntaxError::UnclosedGroup(op.position.0)),
        TokenType::Literal(_) => Err(SyntaxError::MissingBinaryOperand(op.position.0)),
    }
}

/// Applies one operator token: its node is appended and the freshly handed-out
/// reference replaces the consumed operands.
pub open spec fn spec_apply_op(
    ast: Seq<AstNode>,
    out: Seq<AstRef>,
    op: Token,
) -> Result<(Seq<AstNode>, Seq<AstRef>), SyntaxError> {
    match spec_operator_node(out, op) {
        Ok((node, out2)) => {
            let ast2 = ast.push(node);
            Ok((ast2, out2.push(AstRef((ast2.len() - 1) as usize))))
        },
        Err(e) => Err(e),
    }
}

/// Closing a group: operators are popped into the tree until the matching
/// opener, which is discarded; the group contents are wrapped in a node.
pub open spec fn spec_close_group(
    ast: Seq<AstNode>,
    ops: Seq<Token>,
    out: Seq<AstRef>,
    pos: int,
) -> Result<(Seq<AstNode>, Seq<Token>, Seq<AstRef>), SyntaxError>
    decreases ops.len(),
{
    if ops.len() == 0 {
        Err(SyntaxError::UnmatchedGroupClosure(pos as usize))
    } else {
        let op = ops.last();
        if op.kind is OpenGroup {
            if out.len() == 0 {
                Err(SyntaxError::MissingGroupContents(pos as usize))
            } else {
                let ast2 = ast.push(AstNode::Group(out.last()));
                Ok((ast2, ops.drop_last(), out.drop_last().push(AstRef((ast2.len() - 1) as usize))))
            }
        } else {
            match spec_apply_op(ast, out, op) {
                Ok((a2, o2)) => spec_close_group(a2, ops.drop_last(), o2, pos),
                Err(e) => Err(e),
            }
        }
    }
}

/// A binary operator arriving: stacked operators that do not bind strictly
/// looser are popped into the tree first, then the operator is stacked.
pub open spec fn spec_shunt_op(
    ast: Seq<AstNode>,
    ops: Seq<Token>,
    out: Seq<AstRef>,
    tok: Token,
) -> Result<(Seq<AstNode>, Seq<Token>, Seq<AstRef>), SyntaxError>
    decreases ops.len(),
{
    if ops.len() == 0 {
        Ok((ast, ops.push(tok), out))
    } else {
        let prev = ops.last();
        if spec_precedence(tok.kind) > spec_precedence(prev.kind) {
            Ok((ast, ops.push(tok), out))
        } else {
            match spec_apply_op(ast, out, prev) {
                Ok((a2, o2)) => spec_shunt_op(a2, ops.drop_last(), o2, tok),
                Err(e) => Err(e),
            }
        }
    }
}

/// After the last token, the remaining operators are popped into the tree.
pub open spec fn spec_flush(ast: Seq<AstNode>, ops: Seq<Token>, out: Seq<AstRef>) -> Result<
    Seq<AstNode>,
    SyntaxError,
>
    decreases ops.len(),
{
    if ops.len() == 0 {
        Ok(ast)
    } else {
        match spec_apply_op(ast, out, ops.last()) {
            Ok((a2, o2)) => spec_flush(a2, ops.drop_last(), o2),
            Err(e) => Err(e),
        }
    }
}

/// The parser from token index `i` on, with the tree built so far, the
/// operator stack and the operand-reference stack.
pub open spec fn spec_parse_from(
    tokens: Seq<Token>,
    i: int,
    ast: Seq<AstNode>,
    ops: Seq<Token>,
    out: Seq<AstRef>,
) -> Result<Seq<AstNode>, SyntaxError>
    decreases tokens.len() - i,
{
    if i < 0 || i >= tokens.len() {
        spec_flush(ast, ops, out)
    } else {
        let tok = tokens[i];
        match tok.kind {
            TokenType::Literal(lt) => {
                let ast2 = ast.push(AstNode::Literal(lt, tok));
                spec_parse_from(tokens, i + 1, ast2, ops, out.push(AstRef((ast2.len() - 1) as usize)))
            },
            TokenType::OpenGroup => {
                let ops2 = ops.push(tok);
                if i + 1 < tokens.len() && tokens[i + 1].kind is CloseGroup {
                    let ep: int = if tok.position.0 < usize::MAX {
                        tok.position.0 + 1
                    } else {
                        0
                    };
                    let ast2 = ast.push(
                        AstNode::Literal(
                            LiteralType::Character,
                            spec_token(TokenType::Literal(LiteralType::EmptyString), ep, ep),
                        ),
                    );
                    spec_parse_from(tokens, i + 1, ast2, ops2, out.push(AstRef((ast2.len() - 1) as usize)))
                } else {
                    spec_parse_from(tokens, i + 1, ast, ops2, out)
                }
            },
            TokenType::CloseGroup => {
                match spec_close_group(ast, ops, out, tok.position.0 as int) {
                    Ok((a2, ops2, o2)) => spec_parse_from(tokens, i + 1, a2, ops2, o2),
                    Err(e) => Err(e),
                }
            },
            TokenType::Quantifier(q) => {
                if out.len() == 0 {
                    Err(SyntaxError::MissingQuantifierOperand(tok.position.0))
                } else {
                    let ast2 = ast.push(AstNode::Quantifier(q, out.last()));
                    spec_parse_from(
                        tokens,
                        i + 1,
                        ast2,
                        ops,
                        out.drop_last().push(AstRef((ast2.len() - 1) as usize)),
                    )
                }
            },
            _ => {
                match spec_shunt_op(ast, ops, out, tok) {
                    Ok((a2, ops2, o2)) => spec_parse_from(tokens, i + 1, a2, ops2, o2),
                    Err(e) => Err(e),
                }
            },
        }
    }
}

/// What `Ast::from_tokens` returns on the given tokens.
pub open spec fn spec_parse(tokens: Seq<Token>) -> Result<Seq<AstNode>, SyntaxError> {
    spec_parse_from(tokens, 0, Seq::empty(), Seq::empty(), Seq::empty())
}

fn get_binary_operands(out_stack: &mut Vec<AstRef>, position: usize) -> (r: Result<
    (AstRef, AstRef),
    SyntaxError,
>)
    ensures
        old(out_stack)@.len() >= 2 ==> r == Ok::<_, SyntaxError>(
            (old(out_stack)@[old(out_stack)@.len() - 2], old(out_stack)@.last()),
        ) && final(out_stack)@ == old(out_stack)@.drop_last().drop_last(),
        old(out_stack)@.len() < 2 ==> r == Err::<(AstRef, AstRef), _>(
            SyntaxError::MissingBinaryOperand(position),
        ),
{
    if out_stack.len() >= 2 {
        let right = out_stack.pop().unwrap();
        let left = out_stack.pop().unwrap();
        Ok((left, right))
    } else {
        Err(SyntaxError::MissingBinaryOperand(position))
    }
}

fn get_unary_operands(out_stack: &mut Vec<AstRef>, position: usize) -> (r: Result<
    AstRef,
    SyntaxError,
>)
    ensures
        old(out_stack)@.len() >= 1 ==> r == Ok::<_, SyntaxError>(old(out_stack)@.last())
            && final(out_stack)@ == old(out_stack)@.drop_last(),
        old(out_stack)@.len() == 0 ==> r == Err::<AstRef, _>(
            SyntaxError::MissingQuantifierOperand(position),
        ),
{
    if out_stack.len() >= 1 {
        Ok(out_stack.pop().unwrap())
    } else {
        Err(SyntaxError::MissingQuantifierOperand(position))
    }
}

/// Pops the operands of `op_token` and forms its node.
fn get_operator_node(op_token: Token, out_stack: &mut Vec<AstRef>) -> (r: Result<
    AstNode,
    SyntaxError,
>)
    ensures
        match spec_operator_node(old(out_stack)@, op_token) {
            Ok((node, out2)) => r == Ok::<_, SyntaxError>(node) && final(out_stack)@ == out2,
            Err(e) => r == Err::<AstNode, _>(e),
        },
{
    match op_token.kind {
        TokenType::Cons => {
            let (left, right) = match get_binary_operands(out_stack, op_token.start()) {
                Ok(p) => p,
                Err(e) => {
                    return Err(e);
                },
            };
            Ok(AstNode::Cons(left, right))
        },
        TokenType::Alternation => {
            let (left, right) = match get_binary_operands(out_stack, op_token.start()) {
                Ok(p) => p,
                Err(e) => {
                    return Err(e);
                },
            };
            Ok(AstNode::Alternation(left, right))
        },
        TokenType::Quantifier(q) => {
            let arg = match get_unary_operands(out_stack, op_token.start()) {
                Ok(a) => a,
                Err(e) => {
                    return Err(e);
                },
            };
            Ok(AstNode::Quantifier(q, arg))
        },
        TokenType::CloseGroup => {
            if out_stack.len() >= 1 {
                let arg = out_stack.pop().unwrap();
                Ok(AstNode::Group(arg))
            } else {
                Err(SyntaxError::MissingGroupContents(op_token.start()))
            }
        },
        TokenType::OpenGroup => Err(SyntaxError::UnclosedGroup(op_token.start())),
        TokenType::Literal(_) => Err(SyntaxError::MissingBinaryOperand(op_token.start())),
    }
}

/// Pops operators into the tree until the matching opener, then wraps the top
/// of the operand stack in a group node.
#[verifier::loop_isolation(false)]
fn add_group(
    group_pos: usize,
    ast: &mut Ast,
    op_stack: &mut Vec<Token>,
    out_stack: &mut Vec<AstRef>,
) -> (r: Result<(), SyntaxError>)
    ensures
        match spec_close_group(old(ast)@, old(op_stack)@, old(out_stack)@, group_pos as int) {
            Ok((a2, ops2, o2)) => {
                &&& r is Ok
                &&& final(ast)@ == a2
                &&& final(op_stack)@ == ops2
                &&& final(out_stack)@ == o2
            },
            Err(e) => r == Err::<(), _>(e),
        },
{
    let mut finished = false;
    while !finished
        invariant
            !finished ==> spec_close_group(old(ast)@, old(op_stack)@, old(out_stack)@, group_pos as int)
                == spec_close_group(ast@, op_stack@, out_stack@, group_pos as int),
            finished ==> spec_close_group(old(ast)@, old(op_stack)@, old(out_stack)@, group_pos as int)
                == Ok::<_, SyntaxError>((ast@, op_stack@, out_stack@)),
        decreases op_stack@.len() + (if finished { 0int } else { 1 }),
    {
        let op_token = match op_stack.pop() {
            Some(t) => t,
            None => {
                return Err(SyntaxError::UnmatchedGroupClosure(group_pos));
            },
        };
        if matches!(op_token.kind, TokenType::OpenGroup) {
            if out_stack.len() == 0 {
                return Err(SyntaxError::MissingGroupContents(group_pos));
            }
            let group_contents = out_stack.pop().unwrap();
            let new_ref = ast.add(AstNode::Group(group_contents));
            out_stack.push(new_ref);
            finished = true;
        } else {
            let node = match get_operator_node(op_token, out_stack) {
                Ok(n) => n,
                Err(e) => {
                    return Err(e);
                },
            };
            let new_ref = ast.add(node);
            out_stack.push(new_ref);
        }
    }
    Ok(())
}

impl Ast {
    /// Appends a node and hands out its index as the reference to it.
    pub fn add(&mut self, node: AstNode) -> (r: AstRef)
        ensures
            final(self)@ == old(self)@.push(node),
            r.0 == old(self)@.len(),
    {
        self.0.push(node);
        AstRef(self.0.len() - 1)
    }

    pub fn get(&self, node_ref: AstRef) -> (r: &AstNode)
        requires
            node_ref.0 < self@.len(),
        ensures
            *r == self@[node_ref.0 as int],
    {
        &self.0[node_ref.0]
    }

    pub fn size(&self) -> (r: usize)
        ensures
            r == self@.len(),
    {
        self.0.len()
    }

    /// Runs the shunting-yard pass over the tokens and returns the tree in
    /// evaluation order, or the first syntactic fault.
    #[verifier::loop_isolation(false)]
    pub fn from_tokens(tokens: Vec<Token>) -> (r: Result<Ast, SyntaxError>)
        ensures
            match r {
                Ok(ast) => spec_parse(tokens@) == Ok::<Seq<AstNode>, SyntaxError>(ast@),
                Err(e) => spec_parse(tokens@) == Err::<Seq<AstNode>, SyntaxError>(e),
            },
    {
        let n = tokens.len();
        let mut ast = Ast(Vec::new());
        let mut out_stack: Vec<AstRef> = Vec::new();
        let mut op_stack: Vec<Token> = Vec::new();
        let mut i: usize = 0;
        while i < n
            invariant
                i <= n,
                n == tokens@.len(),
                spec_parse(tokens@) == spec_parse_from(tokens@, i as int, ast@, op_stack@, out_stack@),
            decreases n - i,
        {
            let token = tokens[i];
            let ghost prev_ast = ast@;
            let ghost prev_ops = op_stack@;
            let ghost prev_out = out_stack@;
            match token.kind {
                TokenType::Literal(literal_type) => {
                    let new_ref = ast.add(AstNode::Literal(literal_type, token));
                    out_stack.push(new_ref);
                },
                TokenType::OpenGroup => {
                    op_stack.push(token);
                    if i + 1 < n && matches!(tokens[i + 1].kind, TokenType::CloseGroup) {
                        let start = token.start();
                        let ep: usize = if start < usize::MAX {
                            start + 1
                        } else {
                            0
                        };
                        let new_ref = ast.add(
                            AstNode::Literal(LiteralType::Character, Token::empty_string(ep)),
                        );
                        out_stack.push(new_ref);
                    }
                },
                TokenType::CloseGroup => {
                    match add_group(token.start(), &mut ast, &mut op_stack, &mut out_stack) {
                        Ok(()) => {},
                        Err(e) => {
                            return Err(e);
                        },
                    }
                },
                TokenType::Quantifier(quantifier_type) => {
                    let operand = match out_stack.pop() {
                        Some(a) => a,
                        None => {
                            return Err(SyntaxError::MissingQuantifierOperand(token.start()));
                        },
                    };
                    let new_ref = ast.add(AstNode::Quantifier(quantifier_type, operand));
                    out_stack.push(new_ref);
                },
                _ => {
                    let mut done = false;
                    while !done
                        invariant
                            spec_parse(tokens@) == match spec_shunt_op(
                                ast@,
                                op_stack@,
                                out_stack@,
                                token,
                            ) {
                                Ok((a2, ops2, o2)) => spec_parse_from(
                                    tokens@,
                                    i + 1,
                                    a2,
                                    ops2,
                                    o2,
                                ),
                                Err(e) => Err(e),
                            },
                            done ==> (op_stack@.len() == 0 || spec_precedence(token.kind)
                                > spec_precedence(op_stack@.last().kind)),
                        decreases op_stack@.len() + (if done { 0int } else { 1 }),
                    {
                        if op_stack.len() == 0 {
                            done = true;
                        } else {
                            let previous_op = tokens_last(&op_stack);
                            if token.precedes(&previous_op) && !token.same_precedence_as(
                                &previous_op,
                            ) {
                                done = true;
                            } else {
                                let popped_op = op_stack.pop().unwrap();
                                let node = match get_operator_node(popped_op, &mut out_stack) {
                                    Ok(node) => node,
                                    Err(e) => {
                                        return Err(e);
                                    },
                                };
                                let new_ref = ast.add(node);
                                out_stack.push(new_ref);
                            }
                        }
                    }
                    op_stack.push(token);
                },
            }
            i = i + 1;
            proof {
                assert(spec_parse_from(tokens@, i - 1, prev_ast, prev_ops, prev_out)
                    == spec_parse_from(tokens@, i as int, ast@, op_stack@, out_stack@));
            }
        }
        while op_stack.len() > 0
            invariant
                spec_parse(tokens@) == spec_flush(ast@, op_stack@, out_stack@),
            decreases op_stack@.len(),
        {
            let operation = op_stack.pop().unwrap();
            let node = match get_operator_node(operation, &mut out_stack) {
                Ok(node) => node,
                Err(e) => {
                    return Err(e);
                },
            };
            let new_ref = ast.add(node);
            out_stack.push(new_ref);
        }
        Ok(ast)
    }

    /// Alias for `Ast::from_tokens`, after the railroad picture of the
    /// shunting-yard pass.
    pub fn railroad(tokens: Vec<Token>) -> (r: Result<Ast, SyntaxError>)
        ensures
            match r {
                Ok(ast) => spec_parse(tokens@) == Ok::<Seq<AstNode>, SyntaxError>(ast@),
                Err(e) => spec_parse(tokens@) == Err::<Seq<AstNode>, SyntaxError>(e),
            },
    {
        Ast::from_tokens(tokens)
    }

    /// Renders the evaluation order compactly: literals as their byte spans,
    /// operators as one letter each.
    pub fn to_string(&self) -> String {
        let mut pretty = String::new();
        let length = self.0.len();
        let mut idx: usize = 0;
        while idx < length
            invariant
                length == self.0@.len(),
            decreases length - idx,
        {
            match &self.0[idx] {
                AstNode::Alternation(_, _) => pretty.append("|"),
                AstNode::Cons(_, _) => pretty.append("J"),
                AstNode::Group(_) => pretty.append("G"),
                AstNode::Quantifier(qtype, _) => {
                    match qtype {
                        QuantifierType::ZeroOrMore => pretty.append("*"),
                        QuantifierType::OneOrMore => pretty.append("+"),
                        QuantifierType::ZeroOrOne => pretty.append("?"),
                    }
                },
                AstNode::Literal(_, token) => {
                    append_decimal(&mut pretty, token.position.0);
                    pretty.append("..");
                    append_decimal(&mut pretty, token.position.1);
                },
            }
            if idx + 1 < length {
                pretty.append(" ");
            }
            idx = idx + 1;
        }
        pretty
    }
}

/// Copies the last element of the operator stack.
fn tokens_last(ops: &Vec<Token>) -> (r: Token)
    requires
        ops@.len() > 0,
    ensures
        r == ops@.last(),
{
    ops[ops.len() - 1]
}

/// Appends the decimal rendering of `n`.
fn append_decimal(s: &mut String, n: usize) {
    let mut digits: Vec<u8> = Vec::new();
    let mut m = n;
    digits.push((m % 10) as u8);
    m = m / 10;
    while m > 0
        decreases m,
    {
        digits.push((m % 10) as u8);
        m = m / 10;
    }
    let mut k = digits.len();
    while k > 0
        invariant
            k <= digits@.len(),
        decreases k,
    {
        k = k - 1;
        let d = digits[k];
        if d == 0 {
            s.append("0");
        } else if d == 1 {
            s.append("1");
        } else if d == 2 {
            s.append("2");
        } else if d == 3 {
            s.append("3");
        } else if d == 4 {
            s.append("4");
        } else if d == 5 {
            s.append("5");
        } else if d == 6 {
            s.append("6");
        } else if d == 7 {
            s.append("7");
        } else if d == 8 {
            s.append("8");
        } else {
            s.append("9");
        }
    }
}

/// Every child reference of the node points to a strictly earlier index.
pub open spec fn node_children_before(node: AstNode, i: int) -> bool {
    match node {
        AstNode::Alternation(l, r) => l.0 < i && r.0 < i,
        AstNode::Cons(l, r) => l.0 < i && r.0 < i,
        AstNode::Group(c) => c.0 < i,
        AstNode::Quantifier(_, c) => c.0 < i,
        AstNode::Literal(_, _) => true,
    }
}

/// The node sequence is a valid post-order linearization: child references
/// point to strictly earlier indices, so every operator follows its operands
/// and the tree is acyclic.
pub open spec fn postorder_refs(nodes: Seq<AstNode>) -> bool {
    forall|i: int| 0 <= i < nodes.len() ==> node_children_before(#[trigger] nodes[i], i)
}

/// Every reference on the operand stack points into the tree built so far.
pub open spec fn refs_ok(out: Seq<AstRef>, n: int) -> bool {
    forall|j: int| 0 <= j < out.len() ==> (#[trigger] out[j]).0 < n
}

proof fn lemma_apply_op_postorder(ast: Seq<AstNode>, out: Seq<AstRef>, op: Token)
    requires
        postorder_refs(ast),
        refs_ok(out, ast.len() as int),
    ensures
        spec_apply_op(ast, out, op) matches Ok(r2) ==> postorder_refs(r2.0) && refs_ok(
            r2.1,
            r2.0.len() as int,
        ) && r2.0.len() == ast.len() + 1,
{
    match spec_operator_node(out, op) {
        Ok((node, out2)) => {
            let a2 = ast.push(node);
            assert(node_children_before(node, ast.len() as int)) by {
                if out.len() >= 2 {
                    assert(out[out.len() - 2].0 < ast.len());
                    assert(out[out.len() - 1].0 < ast.len());
                } else if out.len() >= 1 {
                    assert(out[out.len() - 1].0 < ast.len());
                }
            }
            assert forall|i: int| 0 <= i < a2.len() implies node_children_before(
                #[trigger] a2[i],
                i,
            ) by {
                if i < ast.len() {
                    assert(a2[i] == ast[i]);
                } else {
                    assert(a2[i] == node);
                }
            }
            let o2 = out2.push(AstRef((a2.len() - 1) as usize));
            assert forall|j: int| 0 <= j < o2.len() implies (#[trigger] o2[j]).0 < a2.len() by {
                if j < o2.len() - 1 {
                    assert(o2[j] == out[j]);
                }
            }
        },
        Err(_) => {},
    }
}

proof fn lemma_close_group_postorder(ast: Seq<AstNode>, ops: Seq<Token>, out: Seq<AstRef>, pos: int)
    requires
        postorder_refs(ast),
        refs_ok(out, ast.len() as int),
    ensures
        spec_close_group(ast, ops, out, pos) matches Ok(r2) ==> postorder_refs(r2.0) && refs_ok(
            r2.2,
            r2.0.len() as int,
        ),
    decreases ops.len(),
{
    if ops.len() > 0 {
        let op = ops.last();
        if op.kind is OpenGroup {
            if out.len() > 0 {
                let node = AstNode::Group(out.last());
                let a2 = ast.push(node);
                assert(out[out.len() - 1].0 < ast.len());
                assert forall|i: int| 0 <= i < a2.len() implies node_children_before(
                    #[trigger] a2[i],
                    i,
                ) by {
                    if i < ast.len() {
                        assert(a2[i] == ast[i]);
                    } else {
                        assert(a2[i] == node);
                    }
                }
                let o2 = out.drop_last().push(AstRef((a2.len() - 1) as usize));
                assert forall|j: int| 0 <= j < o2.len() implies (#[trigger] o2[j]).0 < a2.len() by {
                    if j < o2.len() - 1 {
                        assert(o2[j] == out[j]);
                    }
                }
            }
        } else {
            lemma_apply_op_postorder(ast, out, op);
            match spec_apply_op(ast, out, op) {
                Ok((a2, o2)) => {
                    lemma_close_group_postorder(a2, ops.drop_last(), o2, pos);
                },
                Err(_) => {},
            }
        }
    }
}

proof fn lemma_shunt_op_postorder(ast: Seq<AstNode>, ops: Seq<Token>, out: Seq<AstRef>, tok: Token)
    requires
        postorder_refs(ast),
        refs_ok(out, ast.len() as int),
    ensures
        spec_shunt_op(ast, ops, out, tok) matches Ok(r2) ==> postorder_refs(r2.0) && refs_ok(
            r2.2,
            r2.0.len() as int,
        ),
    decreases ops.len(),
{
    if ops.len() > 0 {
        let prev = ops.last();
        if !(spec_precedence(tok.kind) > spec_precedence(prev.kind)) {
            lemma_apply_op_postorder(ast, out, prev);
            match spec_apply_op(ast, out, prev) {
                Ok((a2, o2)) => {
                    lemma_shunt_op_postorder(a2, ops.drop_last(), o2, tok);
                },
                Err(_) => {},
            }
        }
    }
}

proof fn lemma_flush_postorder(ast: Seq<AstNode>, ops: Seq<Token>, out: Seq<AstRef>)
    requires
        postorder_refs(ast),
        refs_ok(out, ast.len() as int),
    ensures
        spec_flush(ast, ops, out) matches Ok(nodes) ==> postorder_refs(nodes),
    decreases ops.len(),
{
    if ops.len() > 0 {
        lemma_apply_op_postorder(ast, out, ops.last());
        match spec_apply_op(ast, out, ops.last()) {
            Ok((a2, o2)) => {
                lemma_flush_postorder(a2, ops.drop_last(), o2);
            },
            Err(_) => {},
        }
    }
}

proof fn lemma_parse_from_postorder(
    tokens: Seq<Token>,
    i: int,
    ast: Seq<AstNode>,
    ops: Seq<Token>,
    out: Seq<AstRef>,
)
    requires
        postorder_refs(ast),
        refs_ok(out, ast.len() as int),
    ensures
        spec_parse_from(tokens, i, ast, ops, out) matches Ok(nodes) ==> postorder_refs(nodes),
    decreases tokens.len() - i,
{
    if 0 <= i < tokens.len() {
        let tok = tokens[i];
        match tok.kind {
            TokenType::Literal(lt) => {
                let node = AstNode::Literal(lt, tok);
                let a2 = ast.push(node);
                assert forall|k: int| 0 <= k < a2.len() implies node_children_before(
                    #[trigger] a2[k],
                    k,
                ) by {
                    if k < ast.len() {
                        assert(a2[k] == ast[k]);
                    } else {
                        assert(a2[k] == node);
                    }
                }
                let o2 = out.push(AstRef((a2.len() - 1) as usize));
                assert forall|j: int| 0 <= j < o2.len() implies (#[trigger] o2[j]).0 < a2.len() by {
                    if j < o2.len() - 1 {
                        assert(o2[j] == out[j]);
                    }
                }
                lemma_parse_from_postorder(tokens, i + 1, a2, ops, o2);
            },
            TokenType::OpenGroup => {
                let ops2 = ops.push(tok);
                if i + 1 < tokens.len() && tokens[i + 1].kind is CloseGroup {
                    let ep: int = if tok.position.0 < usize::MAX {
                        tok.position.0 + 1
                    } else {
                        0
                    };
                    let node = AstNode::Literal(
                        LiteralType::Character,
                        spec_token(TokenType::Literal(LiteralType::EmptyString), ep, ep),
                    );
                    let a2 = ast.push(node);
                    assert forall|k: int| 0 <= k < a2.len() implies node_children_before(
                        #[trigger] a2[k],
                        k,
                    ) by {
                        if k < ast.len() {
                            assert(a2[k] == ast[k]);
                        } else {
                            assert(a2[k] == node);
                        }
                    }
                    let o2 = out.push(AstRef((a2.len() - 1) as usize));
                    assert forall|j: int| 0 <= j < o2.len() implies (#[trigger] o2[j]).0
                        < a2.len() by {
                        if j < o2.len() - 1 {
                            assert(o2[j] == out[j]);
                        }
                    }
                    lemma_parse_from_postorder(tokens, i + 1, a2, ops2, o2);
                } else {
                    lemma_parse_from_postorder(tokens, i + 1, ast, ops2, out);
                }
            },
            TokenType::CloseGroup => {
                lemma_close_group_postorder(ast, ops, out, tok.position.0 as int);
                match spec_close_group(ast, ops, out, tok.position.0 as int) {
                    Ok((a2, ops2, o2)) => {
                        lemma_parse_from_postorder(tokens, i + 1, a2, ops2, o2);
                    },
                    Err(_) => {},
                }
            },
            TokenType::Quantifier(q) => {
                if out.len() > 0 {
                    let node = AstNode::Quantifier(q, out.last());
                    let a2 = ast.push(node);
                    assert(out[out.len() - 1].0 < ast.len());
                    assert forall|k: int| 0 <= k < a2.len() implies node_children_before(
                        #[trigger] a2[k],
                        k,
                    ) by {
                        if k < ast.len() {
                            assert(a2[k] == ast[k]);
                        } else {
                            assert(a2[k] == node);
                        }
                    }
                    let o2 = out.drop_last().push(AstRef((a2.len() - 1) as usize));
                    assert forall|j: int| 0 <= j < o2.len() implies (#[trigger] o2[j]).0
                        < a2.len() by {
                        if j < o2.len() - 1 {
                            assert(o2[j] == out[j]);
                        }
                    }
                    lemma_parse_from_postorder(tokens, i + 1, a2, ops, o2);
                }
            },
            _ => {
                lemma_shunt_op_postorder(ast, ops, out, tok);
                match spec_shunt_op(ast, ops, out, tok) {
                    Ok((a2, ops2, o2)) => {
                        lemma_parse_from_postorder(tokens, i + 1, a2, ops2, o2);
                    },
                    Err(_) => {},
                }
            },
        }
    } else {
        lemma_flush_postorder(ast, ops, out);
    }
}

/// Whatever tokens the parser is given, a tree it returns is a valid
/// post-order linearization: every child reference points to a strictly
/// earlier index, so each operator follows its operands and walking the tree
/// through `Ast::get` terminates.
pub proof fn lemma_parse_postorder(tokens: Seq<Token>)
    ensures
        spec_parse(tokens) matches Ok(nodes) ==> postorder_refs(nodes),
{
    lemma_parse_from_postorder(tokens, 0, Seq::empty(), Seq::empty(), Seq::empty());
}

} // verus!
