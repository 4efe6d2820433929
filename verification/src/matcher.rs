//! Byte spans of matches, and the interface every matching engine offers.

use vstd::prelude::*;

verus! {

use vstd::string::StringSliceAdditionalSpecFns;

/// A half-open byte span `[start, end)` into the searched input.
#[derive(Debug, PartialEq, Eq, Structural, Clone, Copy)]
pub struct Match {
    pub start: usize,
    pub end: usize,
}

impl Match {
    /// The slice of `subject` that this span covers.
    pub fn substr<'a>(&self, subject: &'a str) -> (r: &'a str)
        requires
            self.start <= self.end,
            self.end <= subject.spec_bytes().len(),
            vstd::utf8::is_char_boundary(subject.spec_bytes(), self.start as int),
            vstd::utf8::is_char_boundary(subject.spec_bytes(), self.end as int),
        ensures
            r.spec_bytes() == subject.spec_bytes().subrange(self.start as int, self.end as int),
    {
        proof {
            vstd::utf8::encode_utf8_valid_utf8(subject@);
        }
        let (head, _) = subject.split_at(self.end);
        proof {
            let bytes = subject.spec_bytes();
            let hb = head.spec_bytes();
            vstd::utf8::valid_utf8_split(bytes, self.end as int);
            assert(hb =~= bytes.subrange(0, self.end as int));
            if self.start == self.end {
                vstd::utf8::is_char_boundary_start_end_of_seq(hb);
            } else {
                vstd::utf8::is_char_boundary_iff_not_is_continuation_byte(
                    bytes,
                    self.start as int,
                );
                vstd::utf8::is_char_boundary_iff_not_is_continuation_byte(hb, self.start as int);
            }
        }
        let (_, r) = head.split_at(self.start);
        proof {
            assert(r.spec_bytes() =~= subject.spec_bytes().subrange(
                self.start as int,
                self.end as int,
            ));
        }
        r
    }

    /// The same span moved `shift` bytes to the right.
    pub fn shift(&self, shift: usize) -> (r: Match)
        requires
            self.start + shift <= usize::MAX,
            self.end + shift <= usize::MAX,
        ensures
            r == (Match { start: (self.start + shift) as usize, end: (self.end + shift) as usize }),
    {
        Match { start: self.start + shift, end: self.end + shift }
    }
}

/// What a matching engine offers: scans that start at a byte offset, and
/// capture extraction. `find` and `captures` scan from the beginning. An
/// engine brings its own model: a fitness condition and the two functions its
/// scans are proved equal to. The byte-offset bounds keep every offset the
/// scans compute inside `usize`.
pub trait Matcher {
    /// Whether this value is a machine fit to run.
    spec fn wf_matcher(&self) -> bool;

    /// What scanning from byte offset `at` yields.
    spec fn find_at_spec(&self, input: Seq<char>, at: int) -> Option<Match>;

    /// What capture extraction from byte offset `at` yields.
    spec fn captures_at_spec(&self, input: Seq<char>, at: int) -> Option<Map<u16, Match>>;

    fn find_at(&self, input: &str, at: usize) -> (r: Option<Match>)
        requires
            self.wf_matcher(),
            at + 4 * input@.len() <= usize::MAX,
        ensures
            r == self.find_at_spec(input@, at as int),
    ;

    fn find(&self, input: &str) -> (r: Option<Match>)
        requires
            self.wf_matcher(),
            4 * input@.len() <= usize::MAX,
        ensures
            r == self.find_at_spec(input@, 0),
    ;

    fn captures_at(&self, input: &str, at: usize) -> (r: Option<
        std::collections::HashMap<u16, Match>,
    >)
        requires
            self.wf_matcher(),
            at + 4 * input@.len() <= usize::MAX,
        ensures
            match r {
                Some(h) => self.captures_at_spec(input@, at as int) matches Some(map) && h@ == map,
                None => self.captures_at_spec(input@, at as int) is None,
            },
    ;

    fn captures(&self, input: &str) -> (r: Option<std::collections::HashMap<u16, Match>>)
        requires
            self.wf_matcher(),
            4 * input@.len() <= usize::MAX,
        ensures
            match r {
                Some(h) => self.captures_at_spec(input@, 0) matches Some(map) && h@ == map,
                None => self.captures_at_spec(input@, 0) is None,
            },
    ;
}

} // verus!
