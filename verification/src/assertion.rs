//! Assertions made inside a test, and what they produce on success and on
//! failure.

use core::fmt::Write;
use vstd::prelude::*;
use vstd::std_specs::cmp::PartialEqSpec;
use vstd::string::*;
use vstd::utf8::*;

use crate::text::{
    cut_point, join_pieces, lemma_cut_point_is_last_boundary, lemma_utf8_concat, lemma_write_pieces_append,
    lemma_write_one_piece, lemma_write_pieces_truncates, offer_piece, piece_accepted, piece_bytes, truncate_text, utf8_of,
    write_pieces,
};

verus! {

broadcast use {is_char_boundary_start_end_of_seq, encode_utf8_valid_utf8};

#[verifier::external_type_specification]
#[verifier::external_body]
pub struct ExFmtError(core::fmt::Error);

#[verifier::external_type_specification]
#[verifier::external_body]
pub struct ExFmtArguments<'a>(core::fmt::Arguments<'a>);

/// `core::fmt::Error` is a unit struct; its `Default` gives that one value.
/// Nothing is promised beyond the value's type.
pub assume_specification[ <core::fmt::Error as core::default::Default>::default ]() -> core::fmt::Error;

/// The handle a test receives: it knows the name of the test it belongs to.
#[derive(Debug)]
pub struct Assertion<'a> {
    test_name: &'a str,
}

impl<'a> Assertion<'a> {
    /// The name of the test this assertion belongs to.
    pub closed spec fn name(&self) -> Seq<char> {
        self.test_name@
    }

    pub fn new(test_name: &'a str) -> (r: Self)
        ensures
            r.name() == test_name@,
    {
        Assertion { test_name }
    }

    pub fn test_name(&self) -> (r: &'a str)
        ensures
            r@ == self.name(),
    {
        self.test_name
    }

    /// Runs `assertion` and hands back what it returned.
    #[must_use]
    pub fn check<E, F: FnOnce() -> Result<(), E>>(&self, assertion: F) -> (r: Result<(), E>)
        requires
            assertion.requires(()),
        ensures
            assertion.ensures((), r),
    {
        let outcome = assertion();
        match outcome {
            Ok(passed) => Ok(passed),
            Err(assertion_failure) => Err(assertion_failure),
        }
    }

    /// Passes when `a == b`; otherwise fails with the description
    /// `expected {a} == {b}`, truncated to `ERROR_DESCRIPTION_LENGTH` bytes at
    /// a character boundary.
    #[must_use]
    pub fn assert_eq<
        const ERROR_DESCRIPTION_LENGTH: usize,
        A: PartialEq<B> + core::fmt::Display,
        B: core::fmt::Display,
    >(&self, a: A, b: B) -> (r: Result<(), AssertionFailure<ERROR_DESCRIPTION_LENGTH>>)
        ensures
            A::obeys_eq_spec() ==> (r is Ok <==> assert_eq_passes(&a, &b)),
            r matches Err(failure) ==> exists|left: Seq<Seq<u8>>, right: Seq<Seq<u8>>|
                {
                    &&& all_valid_utf8(left)
                    &&& all_valid_utf8(right)
                    &&& failure.description_bytes() == truncate_text(
                        join_pieces(message_pieces("expected "@, left, " == "@, right)),
                        ERROR_DESCRIPTION_LENGTH as nat,
                    )
                },
    {
        if a == b {
            Ok(())
        } else {
            Err(AssertionFailure::comparison(&a, " == ", &b))
        }
    }

    /// Passes when `a != b`; otherwise fails with the description
    /// `expected {a} != {b}`, truncated to `ERROR_DESCRIPTION_LENGTH` bytes at
    /// a character boundary.
    #[must_use]
    pub fn assert_ne<
        const ERROR_DESCRIPTION_LENGTH: usize,
        A: PartialEq<B> + core::fmt::Display,
        B: core::fmt::Display,
    >(&self, a: A, b: B) -> (r: Result<(), AssertionFailure<ERROR_DESCRIPTION_LENGTH>>)
        ensures
            A::obeys_eq_spec() ==> (r is Ok <==> assert_ne_passes(&a, &b)),
            r matches Err(failure) ==> exists|left: Seq<Seq<u8>>, right: Seq<Seq<u8>>|
                {
                    &&& all_valid_utf8(left)
                    &&& all_valid_utf8(right)
                    &&& failure.description_bytes() == truncate_text(
                        join_pieces(message_pieces("expected "@, left, " != "@, right)),
                        ERROR_DESCRIPTION_LENGTH as nat,
                    )
                },
    {
        if a != b {
            Ok(())
        } else {
            Err(AssertionFailure::comparison(&a, " != ", &b))
        }
    }
}

/// When `assert_eq` passes on `a` and `b`.
pub open spec fn assert_eq_passes<A: PartialEq<B>, B>(a: &A, b: &B) -> bool {
    a.eq_spec(b)
}

/// When `assert_ne` passes on `a` and `b`.
pub open spec fn assert_ne_passes<A: PartialEq<B>, B>(a: &A, b: &B) -> bool {
    !a.eq_spec(b)
}

/// For values whose `==` follows its specification, exactly one of
/// `assert_eq` and `assert_ne` passes on the same pair.
pub proof fn lemma_eq_ne_exclusive<A: PartialEq<B>, B>(a: &A, b: &B)
    requires
        A::obeys_eq_spec(),
    ensures
        assert_eq_passes(a, b) != assert_ne_passes(a, b),
{
}

/// Whether every piece is valid UTF-8.
pub open spec fn all_valid_utf8(pieces: Seq<Seq<u8>>) -> bool {
    forall|k: int| 0 <= k < pieces.len() ==> valid_utf8(#[trigger] pieces[k])
}

/// The pieces of `expected {a} {op} {b}`: the text `expected `, the pieces
/// of `a`, the operator text, the pieces of `b`.
pub open spec fn message_pieces(
    prefix: Seq<char>,
    left: Seq<Seq<u8>>,
    operator: Seq<char>,
    right: Seq<Seq<u8>>,
) -> Seq<Seq<u8>> {
    seq![utf8_of(prefix)] + left + seq![utf8_of(operator)] + right
}

/// Whether a writer of `capacity` bytes gets from `before` to `after` by
/// being offered some pieces of valid UTF-8, in order.
pub open spec fn written_in_pieces(before: (Seq<u8>, bool), after: (Seq<u8>, bool), capacity: nat) -> bool {
    exists|pieces: Seq<Seq<u8>>| all_valid_utf8(pieces) && after == write_pieces(before, pieces, capacity)
}

/// `core::fmt::Write::write_fmt` with the message `{value}`: the `Display`
/// impl of `T` hands its text to `TruncateWriter::write_str` in pieces, each
/// valid UTF-8, and `write_str` offers each to the writer. Which pieces they
/// are depends on that impl and is not stated.
#[verifier::external_body]
fn write_display<const N: usize, T: core::fmt::Display>(writer: &mut TruncateWriter<N>, value: &T) -> (r: core::fmt::Result)
    ensures
        written_in_pieces(old(writer).state(), final(writer).state(), N as nat),
{
    write!(writer, "{value}")
}

/// `core::fmt::Write::write_fmt` on a `TruncateWriter`: the arguments hand
/// their text to `TruncateWriter::write_str` in pieces, each valid UTF-8,
/// and `write_str` offers each to the writer. Which pieces they are is not
/// stated.
#[verifier::external_body]
fn write_arguments<const N: usize>(
    writer: &mut TruncateWriter<N>,
    arguments: core::fmt::Arguments,
) -> (r: core::fmt::Result)
    ensures
        written_in_pieces(old(writer).state(), final(writer).state(), N as nat),
{
    writer.write_fmt(arguments)
}

/// The record of a passed test.
#[derive(Debug)]
pub struct AssertionSuccessful<'a> {
    test_name: &'a str,
}

impl<'a> AssertionSuccessful<'a> {
    /// The name of the test that passed.
    pub closed spec fn name(&self) -> Seq<char> {
        self.test_name@
    }

    pub fn new(test_name: &'a str) -> (r: Self)
        ensures
            r.name() == test_name@,
    {
        AssertionSuccessful { test_name }
    }

    pub fn test_name(&self) -> (r: &str)
        ensures
            r@ == self.name(),
    {
        self.test_name
    }
}

/// A writer of at most `N` bytes: a piece that fits is taken whole; the
/// first piece that does not fit is cut to the room left, at its last
/// character boundary, and the writer then takes nothing more.
pub struct TruncateWriter<const N: usize> {
    text: String,
    closed: bool,
}

impl<const N: usize> TruncateWriter<N> {
    #[verifier::type_invariant]
    spec fn within_capacity(self) -> bool {
        utf8_of(self.text@).len() <= N
    }

    /// The bytes written so far, and whether the writer is closed.
    pub closed spec fn state(&self) -> (Seq<u8>, bool) {
        (utf8_of(self.text@), self.closed)
    }

    pub fn new() -> (w: Self)
        ensures
            w.state() == (Seq::<u8>::empty(), false),
    {
        let w = TruncateWriter { text: String::new(), closed: false };
        assert(w.text@ =~= Seq::<char>::empty());
        assert(utf8_of(w.text@) =~= Seq::<u8>::empty());
        w
    }

    fn append(&mut self, piece: &str)
        requires
            utf8_of(old(self).text@).len() + piece.spec_bytes().len() <= N,
        ensures
            final(self).state() == (old(self).state().0 + piece.spec_bytes(), old(self).state().1),
    {
        proof {
            lemma_utf8_concat(self.text@, piece@);
        }
        let mut text = String::new();
        core::mem::swap(&mut text, &mut self.text);
        text.append(piece);
        self.text = text;
    }

    /// Offers one piece: taken whole if it fits; otherwise cut to the room
    /// left at its last character boundary, after which the writer closes.
    /// `Ok` exactly when the piece was taken whole.
    pub fn push_truncated(&mut self, s: &str) -> (r: Result<(), ()>)
        ensures
            r is Ok <==> piece_accepted(old(self).state(), s.spec_bytes(), N as nat),
            final(self).state() == offer_piece(old(self).state(), s.spec_bytes(), N as nat),
            final(self).state().0.len() <= N,
            // `Ok` exactly when the writer was open and the piece fits in the
            // room left; then the piece is taken whole and the writer stays open.
            r is Ok <==> !old(self).state().1 && old(self).state().0.len() + s.spec_bytes().len() <= N,
            r is Ok <==> final(self).state() == (old(self).state().0 + s.spec_bytes(), false),
            // Otherwise the writer is closed, and what it took is the start of the piece.
            r is Err ==> final(self).state().1,
            old(self).state().1 ==> final(self).state() == old(self).state(),
            final(self).state().0 == old(self).state().0 + s.spec_bytes().take(
                final(self).state().0.len() - old(self).state().0.len(),
            ),
    {
        proof {
            use_type_invariant(&*self);
        }
        if self.closed {
            return Err(());
        }
        let used: usize = self.text.as_str().as_bytes().len();
        let room: usize = N - used;
        if s.as_bytes().len() <= room {
            self.append(s);
            return Ok(());
        }
        let ghost bytes = s.spec_bytes();
        let mut cut: usize = room;
        while cut > 0 && !s.is_char_boundary(cut)
            invariant
                cut <= room,
                room < bytes.len(),
                bytes == s.spec_bytes(),
                cut_point(bytes, room as int) == cut_point(bytes, cut as int),
            decreases cut,
        {
            cut = cut - 1;
        }
        proof {
            lemma_cut_point_is_last_boundary(bytes, room as int);
        }
        let (head, _tail) = s.split_at(cut);
        assert(head.spec_bytes() =~= bytes.take(cut as int));
        self.append(head);
        self.closed = true;
        Err(())
    }
}

impl<const N: usize> core::fmt::Write for TruncateWriter<N> {
    /// Offers `s` as one piece: see `push_truncated`.
    fn write_str(&mut self, s: &str) -> (r: core::fmt::Result)
        ensures
            r is Ok <==> piece_accepted(old(self).state(), s.spec_bytes(), N as nat),
            final(self).state() == offer_piece(old(self).state(), s.spec_bytes(), N as nat),
            // `Ok` exactly when the writer was open and the piece fits in the
            // room left; then the piece is taken whole and the writer stays open.
            r is Ok <==> !old(self).state().1 && old(self).state().0.len() + s.spec_bytes().len() <= N,
            r is Ok <==> final(self).state() == (old(self).state().0 + s.spec_bytes(), false),
            // Otherwise the writer is closed, and what it took is the start of the piece.
            r is Err ==> final(self).state().1,
            old(self).state().1 ==> final(self).state() == old(self).state(),
            final(self).state().0 == old(self).state().0 + s.spec_bytes().take(
                final(self).state().0.len() - old(self).state().0.len(),
            ),
    {
        match self.push_truncated(s) {
            Ok(()) => Ok(()),
            Err(()) => Err(core::fmt::Error::default()),
        }
    }
}

/// A failed assertion. `ERROR_DESCRIPTION_LENGTH` is the most bytes its
/// description holds: longer text is truncated.
#[derive(Debug)]
pub struct AssertionFailure<const ERROR_DESCRIPTION_LENGTH: usize> {
    description: String,
}

impl<const ERROR_DESCRIPTION_LENGTH: usize> AssertionFailure<ERROR_DESCRIPTION_LENGTH> {
    #[verifier::type_invariant]
    spec fn within_capacity(self) -> bool {
        utf8_of(self.description@).len() <= ERROR_DESCRIPTION_LENGTH
    }

    /// The description, as characters.
    pub closed spec fn description(&self) -> Seq<char> {
        self.description@
    }

    /// The description, as UTF-8 bytes.
    pub open spec fn description_bytes(&self) -> Seq<u8> {
        utf8_of(self.description())
    }

    fn from_writer(writer: TruncateWriter<ERROR_DESCRIPTION_LENGTH>) -> (r: Self)
        ensures
            r.description_bytes() == writer.state().0,
    {
        proof {
            use_type_invariant(&writer);
        }
        AssertionFailure { description: writer.text }
    }

    /// The failure of a comparison: `expected {a}{operator}{b}`, truncated
    /// to the capacity.
    fn comparison<A: core::fmt::Display, B: core::fmt::Display>(a: &A, operator: &str, b: &B) -> (r: Self)
        ensures
            exists|left: Seq<Seq<u8>>, right: Seq<Seq<u8>>|
                {
                    &&& all_valid_utf8(left)
                    &&& all_valid_utf8(right)
                    &&& r.description_bytes() == truncate_text(
                        join_pieces(message_pieces("expected "@, left, operator@, right)),
                        ERROR_DESCRIPTION_LENGTH as nat,
                    )
                },
    {
        let ghost start = (Seq::<u8>::empty(), false);
        let mut writer = TruncateWriter::<ERROR_DESCRIPTION_LENGTH>::new();
        let _ = writer.push_truncated("expected ");
        let ghost after_prefix = writer.state();
        let _ = write_display(&mut writer, a);
        let ghost left = choose|pieces: Seq<Seq<u8>>|
            all_valid_utf8(pieces) && writer.state() == write_pieces(after_prefix, pieces, ERROR_DESCRIPTION_LENGTH as nat);
        let ghost after_left = writer.state();
        let _ = writer.push_truncated(operator);
        let ghost after_operator = writer.state();
        let _ = write_display(&mut writer, b);
        let ghost right = choose|pieces: Seq<Seq<u8>>|
            all_valid_utf8(pieces) && writer.state() == write_pieces(after_operator, pieces, ERROR_DESCRIPTION_LENGTH as nat);
        proof {
            let n = ERROR_DESCRIPTION_LENGTH as nat;
            let p1 = seq![utf8_of("expected "@)];
            let p2 = seq![utf8_of(operator@)];
            lemma_write_one_piece(start, utf8_of("expected "@), n);
            lemma_write_one_piece(after_left, utf8_of(operator@), n);
            lemma_write_pieces_append(start, p1, left, n);
            lemma_write_pieces_append(start, p1 + left, p2, n);
            lemma_write_pieces_append(start, p1 + left + p2, right, n);
            let all = message_pieces("expected "@, left, operator@, right);
            assert(all =~= p1 + left + p2 + right);
            assert(all_valid_utf8(all)) by {
                assert forall|k: int| 0 <= k < all.len() implies valid_utf8(#[trigger] all[k]) by {
                    if k == 0 {
                    } else if k < 1 + left.len() {
                        assert(all[k] == left[k - 1]);
                    } else if k == 1 + left.len() {
                    } else {
                        assert(all[k] == right[k - 2 - left.len()]);
                    }
                }
            }
            assert(valid_utf8(Seq::<u8>::empty())) by {
                assert(utf8_of(Seq::<char>::empty()) =~= Seq::<u8>::empty());
            }
            lemma_write_pieces_truncates(start, all, n);
            assert(Seq::<u8>::empty() + join_pieces(all) =~= join_pieces(all));
        }
        AssertionFailure::from_writer(writer)
    }

    /// Formats `description` into a new failure; text longer than the
    /// capacity is truncated.
    pub fn new(description: core::fmt::Arguments) -> (r: Self)
        ensures
            exists|pieces: Seq<Seq<u8>>|
                all_valid_utf8(pieces) && r.description_bytes() == truncate_text(
                    join_pieces(pieces),
                    ERROR_DESCRIPTION_LENGTH as nat,
                ),
    {
        let mut writer = TruncateWriter::<ERROR_DESCRIPTION_LENGTH>::new();
        let _ = write_arguments(&mut writer, description);
        proof {
            let pieces = choose|pieces: Seq<Seq<u8>>|
                all_valid_utf8(pieces) && writer.state() == write_pieces(
                    (Seq::<u8>::empty(), false),
                    pieces,
                    ERROR_DESCRIPTION_LENGTH as nat,
                );
            assert(valid_utf8(Seq::<u8>::empty())) by {
                assert(utf8_of(Seq::<char>::empty()) =~= Seq::<u8>::empty());
            }
            lemma_write_pieces_truncates((Seq::<u8>::empty(), false), pieces, ERROR_DESCRIPTION_LENGTH as nat);
            assert(Seq::<u8>::empty() + join_pieces(pieces) =~= join_pieces(pieces));
        }
        AssertionFailure::from_writer(writer)
    }

    /// A new failure whose description is `pieces` joined, truncated to
    /// the capacity: the text formatting writes, given the pieces it writes.
    pub fn from_pieces(pieces: &[&str]) -> (r: Self)
        ensures
            r.description_bytes() == truncate_text(
                join_pieces(piece_bytes(pieces@)),
                ERROR_DESCRIPTION_LENGTH as nat,
            ),
    {
        let ghost all = piece_bytes(pieces@);
        let ghost start = (Seq::<u8>::empty(), false);
        let mut writer = TruncateWriter::<ERROR_DESCRIPTION_LENGTH>::new();
        let mut i: usize = 0;
        assert(all.take(0) =~= Seq::<Seq<u8>>::empty());
        while i < pieces.len()
            invariant
                i <= pieces@.len(),
                all == piece_bytes(pieces@),
                writer.state() == write_pieces(start, all.take(i as int), ERROR_DESCRIPTION_LENGTH as nat),
            decreases pieces@.len() - i,
        {
            let ghost before = writer.state();
            let _ = writer.push_truncated(pieces[i]);
            proof {
                let one = seq![all[i as int]];
                lemma_write_one_piece(before, all[i as int], ERROR_DESCRIPTION_LENGTH as nat);
                lemma_write_pieces_append(start, all.take(i as int), one, ERROR_DESCRIPTION_LENGTH as nat);
                assert(all.take(i as int) + one =~= all.take(i + 1));
            }
            i += 1;
        }
        proof {
            assert(all.take(i as int) =~= all);
            assert(all_valid_utf8(all));
            assert(valid_utf8(Seq::<u8>::empty())) by {
                assert(utf8_of(Seq::<char>::empty()) =~= Seq::<u8>::empty());
            }
            lemma_write_pieces_truncates(start, all, ERROR_DESCRIPTION_LENGTH as nat);
            assert(Seq::<u8>::empty() + join_pieces(all) =~= join_pieces(all));
        }
        AssertionFailure::from_writer(writer)
    }

    pub fn error_description(&self) -> (r: &str)
        ensures
            r@ == self.description(),
            r.spec_bytes().len() <= ERROR_DESCRIPTION_LENGTH,
    {
        proof {
            use_type_invariant(self);
        }
        self.description.as_str()
    }

    pub fn take_error_description(self) -> (r: String)
        ensures
            r@ == self.description(),
            utf8_of(r@).len() <= ERROR_DESCRIPTION_LENGTH,
    {
        proof {
            use_type_invariant(&self);
        }
        self.description
    }
}

} // verus!
