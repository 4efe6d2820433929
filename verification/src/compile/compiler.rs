//! The compiler: tokenize, parse, then lower the syntax sequence to one
//! machine by folding combinators over a stack of partial machines.

use vstd::prelude::*;

verus! {

use crate::gex::machine::{GexMachine, SpecMachine, wf, spec_cons, spec_or, spec_group,
    spec_zero_or_more, spec_one_or_more, spec_zero_or_one};
use crate::gex::simple_machines::{
    digit_char_machine, machine_for, machine_for_character, manual_class_from_chars,
    spec_char_machine, spec_digit_machine, spec_machine_for, spec_manual_class,
    spec_whitespace_machine, spec_wildcard_machine, spec_word_machine, whitespace_char_machine,
    wildcard_machine, word_char_machine,
};
use crate::railroad::{Ast, AstNode, SyntaxError, spec_parse};
use crate::text::{char_index_at, char_index_of, sat_add, sat_add_usize, str_to_chars};
use crate::tokenize::{
    CharacterClassType, LiteralType, QuantifierType, Token, TokenizeError, spec_tokenize, tokenize,
};

/// Why a pattern failed to compile: a lexical fault, a syntactic fault, an
/// operator without its operand, or a machine the lowering cannot build.
#[derive(Debug, Clone)]
pub enum CompilerError {
    LexicalError(TokenizeError),
    SyntaxError(SyntaxError),
    MissingOperand(String),
    Catastrophic(String),
}

/// The specification-level image of a `CompilerError`.
pub ghost enum SpecCompileError {
    Lexical(TokenizeError),
    Syntax(SyntaxError),
    MissingOperand(Seq<char>),
    Catastrophic(Seq<char>),
}

/// The exec error carries the same fault as its specification image.
pub open spec fn err_corresponds(e: CompilerError, se: SpecCompileError) -> bool {
    match (e, se) {
        (CompilerError::LexicalError(a), SpecCompileError::Lexical(b)) => a == b,
        (CompilerError::SyntaxError(a), SpecCompileError::Syntax(b)) => a == b,
        (CompilerError::MissingOperand(m), SpecCompileError::MissingOperand(ms)) => m@ == ms,
        (CompilerError::Catastrophic(m), SpecCompileError::Catastrophic(ms)) => m@ == ms,
        _ => false,
    }
}

/// The largest machine a single combinator operand may have; the lowering
/// refuses to grow past it, so renumbering arithmetic always fits.
pub open spec fn spec_size_cap() -> int {
    0x0FFF_FFFF
}

/// A class fault reported against the whole pattern: the offset inside the
/// class text moved to the class's own byte offset.
pub open spec fn spec_shift_class_err(e: SyntaxError, base: int) -> SyntaxError {
    match e {
        SyntaxError::InvalidCharacterRange(p) => SyntaxError::InvalidCharacterRange(
            sat_add(p as int, base) as usize,
        ),
        other => other,
    }
}

/// One literal node lowered to its leaf machine, or the fault it raises.
pub open spec fn spec_lower_literal(cs: Seq<char>, lt: LiteralType, tok: Token) -> Result<
    SpecMachine,
    SpecCompileError,
> {
    match lt {
        LiteralType::Wildcard => Ok(spec_wildcard_machine()),
        LiteralType::Character => Ok(spec_machine_for(cs, tok)),
        LiteralType::EscapedCharacter => {
            let k = char_index_at(cs, tok.position.0 as int);
            if k + 1 < cs.len() {
                Ok(spec_char_machine(cs[k + 1]))
            } else {
                Err(
                    SpecCompileError::Catastrophic(
                        "Unfinished escape sequence during compilation"@,
                    ),
                )
            }
        },
        LiteralType::CharacterClass(class_type, positive) => {
            match class_type {
                CharacterClassType::Word => Ok(spec_word_machine(positive)),
                CharacterClassType::Digit => Ok(spec_digit_machine(positive)),
                CharacterClassType::Whitespace => Ok(spec_whitespace_machine(positive)),
                CharacterClassType::Manual => {
                    let kstart = char_index_at(cs, tok.position.0 as int);
                    let kend0 = char_index_at(cs, tok.position.1 as int);
                    let kend = if kend0 < kstart {
                        kstart
                    } else {
                        kend0
                    };
                    match spec_manual_class(positive, cs.subrange(kstart, kend)) {
                        Ok(m) => Ok(m),
                        Err(e) => Err(
                            SpecCompileError::Syntax(
                                spec_shift_class_err(e, tok.position.0 as int),
                            ),
                        ),
                    }
                },
            }
        },
        LiteralType::EmptyString => Err(
            SpecCompileError::Catastrophic("Empty string not implemented"@),
        ),
    }
}

/// The lowering fold: each node either pushes a leaf machine or combines the
/// top of the stack; the surviving machine is the result. Oversized machines
/// and exhausted group numbers are refused rather than built.
pub open spec fn spec_lower(
    cs: Seq<char>,
    nodes: Seq<AstNode>,
    i: int,
    stack: Seq<SpecMachine>,
) -> Result<SpecMachine, SpecCompileError>
    decreases nodes.len() - i,
{
    if i < 0 || i >= nodes.len() {
        if stack.len() == 0 {
            Err(SpecCompileError::Catastrophic("No NFA created"@))
        } else {
            Ok(stack.last())
        }
    } else {
        match nodes[i] {
            AstNode::Literal(lt, tok) => match spec_lower_literal(cs, lt, tok) {
                Ok(m) => spec_lower(cs, nodes, i + 1, stack.push(m)),
                Err(e) => Err(e),
            },
            AstNode::Quantifier(q, _) => {
                let msg: Seq<char> = match q {
                    QuantifierType::ZeroOrMore => "'*' (zero or more)"@,
                    QuantifierType::OneOrMore => "'+' (one or more)"@,
                    QuantifierType::ZeroOrOne => "'?' (zero or one)"@,
                };
                if stack.len() == 0 {
                    Err(SpecCompileError::MissingOperand(msg))
                } else {
                    let operand = stack.last();
                    if operand.states.len() > spec_size_cap() {
                        Err(SpecCompileError::Catastrophic("Machine too large"@))
                    } else {
                        let built = match q {
                            QuantifierType::ZeroOrMore => spec_zero_or_more(operand),
                            QuantifierType::OneOrMore => spec_one_or_more(operand),
                            QuantifierType::ZeroOrOne => spec_zero_or_one(operand),
                        };
                        spec_lower(cs, nodes, i + 1, stack.drop_last().push(built))
                    }
                }
            },
            AstNode::Cons(_, _) => {
                if stack.len() == 0 {
                    Err(SpecCompileError::MissingOperand("'cons' (right hand side)"@))
                } else if stack.len() == 1 {
                    Err(SpecCompileError::MissingOperand("'cons' (left hand side)"@))
                } else {
                    let right = stack.last();
                    let left = stack[stack.len() - 2];
                    if left.states.len() > spec_size_cap() || right.states.len()
                        > spec_size_cap() {
                        Err(SpecCompileError::Catastrophic("Machine too large"@))
                    } else if left.groups + right.groups > 0xFFFF {
                        Err(SpecCompileError::Catastrophic("Too many capturing groups"@))
                    } else {
                        spec_lower(
                            cs,
                            nodes,
                            i + 1,
                            stack.drop_last().drop_last().push(spec_cons(left, right)),
                        )
                    }
                }
            },
            AstNode::Alternation(_, _) => {
                if stack.len() == 0 {
                    Err(SpecCompileError::MissingOperand("'|' (alternation right hand side)"@))
                } else if stack.len() == 1 {
                    Err(SpecCompileError::MissingOperand("'|' (alternation left hand side)"@))
                } else {
                    let right = stack.last();
                    let left = stack[stack.len() - 2];
                    if left.states.len() > spec_size_cap() || right.states.len()
                        > spec_size_cap() {
                        Err(SpecCompileError::Catastrophic("Machine too large"@))
                    } else if left.groups + right.groups > 0xFFFF {
                        Err(SpecCompileError::Catastrophic("Too many capturing groups"@))
                    } else {
                        spec_lower(
                            cs,
                            nodes,
                            i + 1,
                            stack.drop_last().drop_last().push(spec_or(left, right)),
                        )
                    }
                }
            },
            AstNode::Group(_) => {
                if stack.len() == 0 {
                    Err(SpecCompileError::MissingOperand("'()' (grouping)"@))
                } else {
                    let operand = stack.last();
                    if operand.groups >= 0xFFFF {
                        Err(SpecCompileError::Catastrophic("Too many capturing groups"@))
                    } else {
                        spec_lower(cs, nodes, i + 1, stack.drop_last().push(spec_group(operand)))
                    }
                }
            },
        }
    }
}

/// What `compile` yields on a pattern: its machine, or the first fault of the
/// pipeline.
pub open spec fn spec_compile(cs: Seq<char>) -> Result<SpecMachine, SpecCompileError> {
    match spec_tokenize(cs) {
        Err(e) => Err(SpecCompileError::Lexical(e)),
        Ok(toks) => match spec_parse(toks) {
            Err(e) => Err(SpecCompileError::Syntax(e)),
            Ok(nodes) => spec_lower(cs, nodes, 0, Seq::empty()),
        },
    }
}

/// Pops the next operand for an operator, or reports it missing with the
/// operator's description.
fn get_operand(info: &str, combination_stack: &mut Vec<GexMachine>) -> (r: Result<
    GexMachine,
    CompilerError,
>)
    ensures
        old(combination_stack)@.len() > 0 ==> (r matches Ok(m) && m == old(
            combination_stack,
        )@.last() && final(combination_stack)@ == old(combination_stack)@.drop_last()),
        old(combination_stack)@.len() == 0 ==> (r matches Err(e) && (e matches CompilerError::MissingOperand(m)
            && m@ == info@) && final(combination_stack)@ == old(combination_stack)@),
{
    match combination_stack.pop() {
        Some(m) => Ok(m),
        None => Err(CompilerError::MissingOperand(info.to_owned())),
    }
}

/// The views of an exec machine stack.
pub open spec fn stack_views(s: Seq<GexMachine>) -> Seq<SpecMachine> {
    s.map(|_i: int, g: GexMachine| g@)
}

/// Compiles a pattern into its machine: tokens, then the syntax sequence,
/// then the combinator fold. Every fault of a stage surfaces here.
#[verifier::loop_isolation(false)]
pub fn compile(input: &str) -> (r: Result<GexMachine, CompilerError>)
    requires
        4 * input@.len() <= usize::MAX,
    ensures
        match r {
            Ok(m) => spec_compile(input@) matches Ok(sm) && m@ =~~= sm && wf(m@),
            Err(e) => spec_compile(input@) matches Err(se) && err_corresponds(e, se),
        },
{
    let tokens = match tokenize(input) {
        Ok(t) => t,
        Err(err) => {
            return Err(CompilerError::LexicalError(err));
        },
    };
    let ast = match Ast::from_tokens(tokens) {
        Ok(a) => a,
        Err(err) => {
            return Err(CompilerError::SyntaxError(err));
        },
    };
    let chars = str_to_chars(input);
    let ghost nodes = ast@;
    let n = ast.size();
    let mut combination_stack: Vec<GexMachine> = Vec::with_capacity(2);
    proof {
        assert(stack_views(combination_stack@) =~= Seq::<SpecMachine>::empty());
        assert(spec_compile(input@) == spec_lower(input@, nodes, 0, Seq::empty()));
    }
    let mut i: usize = 0;
    while i < n
        invariant
            i <= n,
            n == nodes.len(),
            ast@ == nodes,
            chars@ == input@,
            4 * input@.len() <= usize::MAX,
            forall|q: int|
                0 <= q < combination_stack@.len() ==> wf(#[trigger] combination_stack@[q]@),
            spec_compile(input@) == spec_lower(
                input@,
                nodes,
                i as int,
                stack_views(combination_stack@),
            ),
        decreases n - i,
    {
        let ghost prev_stack = stack_views(combination_stack@);
        let node = &ast.0[i];
        match node {
            AstNode::Literal(ltype, token) => {
                let built: GexMachine = match ltype {
                    LiteralType::Wildcard => wildcard_machine(),
                    LiteralType::Character => machine_for(*token, input),
                    LiteralType::EscapedCharacter => {
                        let k = char_index_of(&chars, token.start());
                        if k + 1 < chars.len() {
                            machine_for_character(chars[k + 1])
                        } else {
                            return Err(
                                CompilerError::Catastrophic(
                                    "Unfinished escape sequence during compilation".to_owned(),
                                ),
                            );
                        }
                    },
                    LiteralType::CharacterClass(class_type, positive) => {
                        match class_type {
                            CharacterClassType::Word => word_char_machine(*positive),
                            CharacterClassType::Digit => digit_char_machine(*positive),
                            CharacterClassType::Whitespace => whitespace_char_machine(*positive),
                            CharacterClassType::Manual => {
                                let kstart = char_index_of(&chars, token.start());
                                let kend0 = char_index_of(&chars, token.end());
                                let kend = if kend0 < kstart {
                                    kstart
                                } else {
                                    kend0
                                };
                                match manual_class_from_chars(*positive, &chars, kstart, kend) {
                                    Ok(m) => m,
                                    Err(e) => {
                                        let shifted = match e {
                                            SyntaxError::InvalidCharacterRange(p) => SyntaxError::InvalidCharacterRange(
                                                sat_add_usize(p, token.start()),
                                            ),
                                            other => other,
                                        };
                                        return Err(CompilerError::SyntaxError(shifted));
                                    },
                                }
                            },
                        }
                    },
                    LiteralType::EmptyString => {
                        return Err(
                            CompilerError::Catastrophic("Empty string not implemented".to_owned()),
                        );
                    },
                };
                combination_stack.push(built);
                proof {
                    assert(stack_views(combination_stack@) =~= prev_stack.push(built@));
                }
            },
            AstNode::Quantifier(qtype, _) => {
                let info: &str = match qtype {
                    QuantifierType::ZeroOrMore => "'*' (zero or more)",
                    QuantifierType::OneOrMore => "'+' (one or more)",
                    QuantifierType::ZeroOrOne => "'?' (zero or one)",
                };
                let operand = match get_operand(info, &mut combination_stack) {
                    Ok(m) => m,
                    Err(e) => {
                        return Err(e);
                    },
                };
                proof {
                    assert(operand@ == prev_stack.last());
                    assert(stack_views(combination_stack@) =~= prev_stack.drop_last());
                }
                if operand.size() > 0x0FFF_FFFF {
                    return Err(CompilerError::Catastrophic("Machine too large".to_owned()));
                }
                let built = match qtype {
                    QuantifierType::ZeroOrMore => operand.zero_or_more(),
                    QuantifierType::OneOrMore => operand.one_or_more(),
                    QuantifierType::ZeroOrOne => operand.zero_or_one(),
                };
                combination_stack.push(built);
                proof {
                    assert(stack_views(combination_stack@) =~= prev_stack.drop_last().push(
                        built@,
                    ));
                }
            },
            AstNode::Cons(_, _) => {
                let right = match get_operand("'cons' (right hand side)", &mut combination_stack) {
                    Ok(m) => m,
                    Err(e) => {
                        return Err(e);
                    },
                };
                let left = match get_operand("'cons' (left hand side)", &mut combination_stack) {
                    Ok(m) => m,
                    Err(e) => {
                        return Err(e);
                    },
                };
                proof {
                    assert(right@ == prev_stack.last());
                    assert(left@ == prev_stack[prev_stack.len() - 2]);
                }
                if left.size() > 0x0FFF_FFFF || right.size() > 0x0FFF_FFFF {
                    return Err(CompilerError::Catastrophic("Machine too large".to_owned()));
                }
                if left.max_group_index as u32 + right.max_group_index as u32 > 0xFFFF {
                    return Err(
                        CompilerError::Catastrophic("Too many capturing groups".to_owned()),
                    );
                }
                let built = left.cons(right);
                combination_stack.push(built);
                proof {
                    assert(stack_views(combination_stack@) =~= prev_stack.drop_last().drop_last()
                        .push(built@));
                }
            },
            AstNode::Alternation(_, _) => {
                let right = match get_operand(
                    "'|' (alternation right hand side)",
                    &mut combination_stack,
                ) {
                    Ok(m) => m,
                    Err(e) => {
                        return Err(e);
                    },
                };
                let left = match get_operand(
                    "'|' (alternation left hand side)",
                    &mut combination_stack,
                ) {
                    Ok(m) => m,
                    Err(e) => {
                        return Err(e);
                    },
                };
                proof {
                    assert(right@ == prev_stack.last());
                    assert(left@ == prev_stack[prev_stack.len() - 2]);
                }
                if left.size() > 0x0FFF_FFFF || right.size() > 0x0FFF_FFFF {
                    return Err(CompilerError::Catastrophic("Machine too large".to_owned()));
                }
                if left.max_group_index as u32 + right.max_group_index as u32 > 0xFFFF {
                    return Err(
                        CompilerError::Catastrophic("Too many capturing groups".to_owned()),
                    );
                }
                let built = left.or(right);
                combination_stack.push(built);
                proof {
                    assert(stack_views(combination_stack@) =~= prev_stack.drop_last().drop_last()
                        .push(built@));
                }
            },
            AstNode::Group(_) => {
                let operand = match get_operand("'()' (grouping)", &mut combination_stack) {
                    Ok(m) => m,
                    Err(e) => {
                        return Err(e);
                    },
                };
                proof {
                    assert(operand@ == prev_stack.last());
                }
                if operand.max_group_index >= 0xFFFF {
                    return Err(
                        CompilerError::Catastrophic("Too many capturing groups".to_owned()),
                    );
                }
                let built = operand.group();
                combination_stack.push(built);
                proof {
                    assert(stack_views(combination_stack@) =~= prev_stack.drop_last().push(
                        built@,
                    ));
                }
            },
        }
        i = i + 1;
    }
    match combination_stack.pop() {
        Some(m) => Ok(m),
        None => Err(CompilerError::Catastrophic("No NFA created".to_owned())),
    }
}

/// The empty pattern does not compile: the lowering is left with no machine
/// and reports that none was created.
pub proof fn lemma_empty_pattern()
    ensures
        spec_compile(Seq::empty()) matches Err(se) && se matches SpecCompileError::Catastrophic(ms)
            && ms == "No NFA created"@,
{
    assert(spec_tokenize(Seq::empty()) == Ok::<Seq<Token>, TokenizeError>(Seq::empty()));
    assert(spec_parse(Seq::empty()) == crate::railroad::spec_flush(
        Seq::empty(),
        Seq::empty(),
        Seq::empty(),
    ));
    assert(spec_lower(Seq::empty(), Seq::empty(), 0, Seq::empty())
        == Err::<crate::gex::machine::SpecMachine, SpecCompileError>(
        SpecCompileError::Catastrophic("No NFA created"@),
    ));
}

} // verus!
