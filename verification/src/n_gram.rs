//! Fixed-length sequences of key slots and of characters.

use vstd::prelude::*;
use vstd::string::{is_ascii_spec_bytes, StringSliceAdditionalSpecFns};
use vstd::utf8::{
    encode_utf8_valid_utf8, is_char_boundary, is_char_boundary_iff_not_is_continuation_byte,
    is_char_boundary_start_end_of_seq, valid_utf8, valid_utf8_split,
};

verus! {

/// `N` key slots in the order in which they are pressed.
#[derive(Debug, Eq, Hash, PartialEq)]
pub struct PhysicalNGram<const N: usize>(pub [usize; N]);

impl<const N: usize> View for PhysicalNGram<N> {
    type V = Seq<usize>;

    open spec fn view(&self) -> Seq<usize> {
        self.0@
    }
}

impl<const N: usize> PhysicalNGram<N> {
    pub fn new(n_gram: [usize; N]) -> (r: Self)
        ensures
            r@ == n_gram@,
    {
        PhysicalNGram(n_gram)
    }

    pub fn get(&self, index: usize) -> (r: usize)
        requires
            index < N,
        ensures
            r == self@[index as int],
    {
        self.0[index]
    }

    pub fn set(&mut self, index: usize, value: usize)
        requires
            index < N,
        ensures
            final(self)@ == old(self)@.update(index as int, value),
    {
        self.0[index] = value;
    }
}

/// `N` characters in the order in which they are typed.
#[derive(Debug, Eq, Hash, PartialEq)]
pub struct LogicalNGram<const N: usize>(pub [char; N]);

impl<const N: usize> View for LogicalNGram<N> {
    type V = Seq<char>;

    open spec fn view(&self) -> Seq<char> {
        self.0@
    }
}

impl<const N: usize> LogicalNGram<N> {
    pub fn new(n_gram: [char; N]) -> (r: Self)
        ensures
            r@ == n_gram@,
    {
        LogicalNGram(n_gram)
    }

    pub fn get(&self, index: usize) -> (r: char)
        requires
            index < N,
        ensures
            r == self@[index as int],
    {
        self.0[index]
    }

    pub fn set(&mut self, index: usize, value: char)
        requires
            index < N,
        ensures
            final(self)@ == old(self)@.update(index as int, value),
    {
        self.0[index] = value;
    }
}

/// Every run of `n` bytes of the text begins and ends between two
/// characters.  In a text of one-byte characters this holds of every `n`.
pub open spec fn windows_are_text(bytes: Seq<u8>, n: int) -> bool {
    forall|i: int|
        0 <= i <= bytes.len() - n ==> #[trigger] is_char_boundary(bytes, i) && is_char_boundary(
            bytes,
            i + n,
        )
}

/// In a text of one-byte characters every run of bytes is text.
pub proof fn lemma_ascii_windows(text: &str, n: int)
    requires
        text.is_ascii(),
        0 <= n,
    ensures
        windows_are_text(text.spec_bytes(), n),
{
    let bytes = text.spec_bytes();
    encode_utf8_valid_utf8(text@);
    is_ascii_spec_bytes(text);
    is_char_boundary_start_end_of_seq(bytes);
    assert forall|i: int| 0 <= i <= bytes.len() implies #[trigger] is_char_boundary(bytes, i) by {
        if i < bytes.len() {
            is_char_boundary_iff_not_is_continuation_byte(bytes, i);
            assert(bytes[i] < 128);
        }
    }
}

/// A boundary of the text that lies in a tail of the text is a boundary of
/// the tail.
proof fn lemma_boundary_in_tail(bytes: Seq<u8>, from: int, n: int)
    requires
        valid_utf8(bytes),
        0 <= from,
        0 <= n,
        from + n <= bytes.len(),
        is_char_boundary(bytes, from),
        is_char_boundary(bytes, from + n),
    ensures
        valid_utf8(bytes.subrange(from, bytes.len() as int)),
        is_char_boundary(bytes.subrange(from, bytes.len() as int), n),
{
    let tail = bytes.subrange(from, bytes.len() as int);
    valid_utf8_split(bytes, from);
    if n == tail.len() {
        is_char_boundary_start_end_of_seq(tail);
    } else {
        is_char_boundary_iff_not_is_continuation_byte(bytes, from + n);
        is_char_boundary_iff_not_is_continuation_byte(tail, n);
        assert(tail[n] == bytes[from + n]);
    }
}

/// The runs of `n` bytes of the text, from each byte on, in the order in
/// which they begin.  A text shorter than `n` has none.
pub fn generate_n_grams(text: &str, n: usize) -> (r: Vec<&str>)
    requires
        n > 0,
        windows_are_text(text.spec_bytes(), n as int),
    ensures
        r@.len() == if text.spec_bytes().len() >= n {
            text.spec_bytes().len() - n + 1
        } else {
            0
        },
        forall|i: int|
            0 <= i < r@.len() ==> (#[trigger] r@[i]).spec_bytes() == text.spec_bytes().subrange(
                i,
                i + n,
            ),
{
    let mut n_grams: Vec<&str> = Vec::new();
    let len = text.as_bytes().len();
    if len < n {
        return n_grams;
    }
    let last = len - n;
    let mut i: usize = 0;
    proof {
        encode_utf8_valid_utf8(text@);
    }
    while i <= last
        invariant
            n > 0,
            len == text.spec_bytes().len(),
            last == len - n,
            i <= last + 1,
            valid_utf8(text.spec_bytes()),
            windows_are_text(text.spec_bytes(), n as int),
            n_grams@.len() == i,
            forall|k: int|
                0 <= k < i ==> (#[trigger] n_grams@[k]).spec_bytes()
                    == text.spec_bytes().subrange(k, k + n),
        decreases last + 1 - i,
    {
        proof {
            assert(is_char_boundary(text.spec_bytes(), i as int));
            lemma_boundary_in_tail(text.spec_bytes(), i as int, n as int);
        }
        let (_, tail) = text.split_at(i);
        let (window, _) = tail.split_at(n);
        assert(window.spec_bytes() =~= text.spec_bytes().subrange(i as int, i + n));
        n_grams.push(window);
        i += 1;
    }
    n_grams
}

} // verus!
