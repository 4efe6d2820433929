//! Characters and byte offsets: the engine reports spans as byte offsets into
//! the UTF-8 encoding of the input, while it consumes the input one Unicode
//! scalar at a time.

use vstd::prelude::*;

verus! {

use vstd::std_specs::iter::IteratorSpec;

/// Number of bytes the UTF-8 encoding of `c` occupies.
pub open spec fn char_len(c: char) -> int {
    if (c as u32) < 0x80 {
        1
    } else if (c as u32) < 0x800 {
        2
    } else if (c as u32) < 0x10000 {
        3
    } else {
        4
    }
}

/// Number of bytes the UTF-8 encoding of the whole sequence occupies.
pub open spec fn blen(cs: Seq<char>) -> int
    decreases cs.len(),
{
    if cs.len() == 0 {
        0
    } else {
        blen(cs.drop_last()) + char_len(cs.last())
    }
}

pub broadcast proof fn lemma_blen_bounds(cs: Seq<char>)
    ensures
        cs.len() <= #[trigger] blen(cs) <= 4 * cs.len(),
    decreases cs.len(),
{
    if cs.len() > 0 {
        lemma_blen_bounds(cs.drop_last());
    }
}

/// Byte offset of the scalar with index `k`.
pub open spec fn byte_pos(cs: Seq<char>, k: int) -> int {
    blen(cs.take(k))
}

/// `pos` is the byte offset of some scalar of `cs`, or the total byte length.
pub open spec fn is_scalar_boundary(cs: Seq<char>, pos: int) -> bool {
    exists|k: int| 0 <= k <= cs.len() && byte_pos(cs, k) == pos
}

pub proof fn lemma_byte_pos_step(cs: Seq<char>, k: int)
    requires
        0 <= k < cs.len(),
    ensures
        byte_pos(cs, k + 1) == byte_pos(cs, k) + char_len(cs[k]),
{
    assert(cs.take(k + 1).drop_last() =~= cs.take(k));
}

/// Index of the scalar whose encoding covers byte offset `bpos`, counting a
/// scalar as reached once the offset falls inside or before it; the sequence
/// length when the offset lies past the end.
pub open spec fn char_index_at(cs: Seq<char>, bpos: int) -> int
    decreases cs.len(),
{
    if bpos <= 0 || cs.len() == 0 {
        0
    } else {
        1 + char_index_at(cs.drop_first(), bpos - char_len(cs[0]))
    }
}

pub proof fn lemma_char_index_at_bounds(cs: Seq<char>, bpos: int)
    ensures
        0 <= char_index_at(cs, bpos) <= cs.len(),
    decreases cs.len(),
{
    if !(bpos <= 0 || cs.len() == 0) {
        lemma_char_index_at_bounds(cs.drop_first(), bpos - char_len(cs[0]));
    }
}

/// Walks the scalars of `chars` to the one at byte offset `bpos`.
pub fn char_index_of(chars: &Vec<char>, bpos: usize) -> (k: usize)
    ensures
        k == char_index_at(chars@, bpos as int),
        k <= chars@.len(),
{
    let n = chars.len();
    let mut k: usize = 0;
    let mut rem: usize = bpos;
    proof {
        assert(chars@.skip(0) =~= chars@);
    }
    while k < n && rem > 0
        invariant
            k <= n,
            n == chars@.len(),
            char_index_at(chars@, bpos as int) == k + char_index_at(chars@.skip(k as int), rem as int),
        decreases n - k,
    {
        let l = char_utf8_len(chars[k]);
        let ghost suffix = chars@.skip(k as int);
        let ghost old_rem = rem as int;
        if l >= rem {
            rem = 0;
        } else {
            rem = rem - l;
        }
        proof {
            assert(suffix[0] == chars@[k as int]);
            assert(suffix.drop_first() =~= chars@.skip(k + 1));
            assert(char_index_at(suffix, old_rem) == 1 + char_index_at(
                chars@.skip(k + 1),
                old_rem - char_len(chars@[k as int]),
            ));
            lemma_char_index_at_nonpos(chars@.skip(k + 1), old_rem - char_len(chars@[k as int]), rem as int);
        }
        k = k + 1;
    }
    proof {
        if k < n {
            assert(char_index_at(chars@.skip(k as int), rem as int) == 0);
        } else {
            assert(chars@.skip(k as int).len() == 0);
        }
        lemma_char_index_at_bounds(chars@, bpos as int);
    }
    k
}

/// Offsets at or before the first scalar agree on the index they pick.
proof fn lemma_char_index_at_nonpos(cs: Seq<char>, a: int, b: int)
    requires
        a == b || (a <= 0 && b <= 0),
    ensures
        char_index_at(cs, a) == char_index_at(cs, b),
{
}

/// Addition that stops at the largest byte offset instead of wrapping.
pub open spec fn sat_add(a: int, b: int) -> int {
    if a + b > usize::MAX {
        usize::MAX as int
    } else {
        a + b
    }
}

pub fn sat_add_usize(a: usize, b: usize) -> (r: usize)
    ensures
        r == sat_add(a as int, b as int),
{
    if a > usize::MAX - b {
        usize::MAX
    } else {
        a + b
    }
}

pub fn char_utf8_len(c: char) -> (n: usize)
    ensures
        n == char_len(c),
{
    let u = c as u32;
    if u < 0x80 {
        1
    } else if u < 0x800 {
        2
    } else if u < 0x10000 {
        3
    } else {
        4
    }
}

/// Collects the scalars of `s` into a vector.
pub fn str_to_chars(s: &str) -> (v: Vec<char>)
    ensures
        v@ == s@,
{
    broadcast use vstd::string::axiom_spec_iter;
    broadcast use vstd::string::next_postcondition;

    let mut v: Vec<char> = Vec::new();
    let mut it = s.chars();
    loop
        invariant
            it.obeys_prophetic_iter_laws(),
            v@.len() <= s@.len(),
            it.remaining() =~= s@.skip(v@.len() as int),
            v@ =~= s@.take(v@.len() as int),
        decreases s@.len() - v@.len(),
    {
        match it.next() {
            Some(c) => {
                proof {
                    assert(s@.skip(v@.len() as int).drop_first() =~= s@.skip(
                        v@.len() as int + 1,
                    ));
                }
                v.push(c);
                proof {
                    assert(v@ =~= s@.take(v@.len() as int));
                }
            },
            None => {
                proof {
                    assert(s@.skip(v@.len() as int).len() == 0);
                    assert(v@ =~= s@);
                }
                return v;
            },
        }
    }
}

} // verus!
