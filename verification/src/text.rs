//! Byte-level model of text: UTF-8 encodings, and the rule by which a
//! bounded buffer takes text: a piece that fits is taken whole; the first
//! piece that does not fit is cut to the room left, at the last character
//! boundary, and the buffer takes nothing after it.

use vstd::prelude::*;
use vstd::string::*;
use vstd::utf8::*;

verus! {

broadcast use {is_char_boundary_start_end_of_seq, encode_utf8_valid_utf8};

/// The UTF-8 bytes of a character sequence.
pub open spec fn utf8_of(text: Seq<char>) -> Seq<u8> {
    encode_utf8(text)
}

/// The UTF-8 bytes of each piece.
pub open spec fn piece_bytes(pieces: Seq<&str>) -> Seq<Seq<u8>> {
    pieces.map_values(|p: &str| p.spec_bytes())
}

/// The last character boundary of `bytes` at or before `room` (0 when
/// `room` is not positive).
pub open spec fn cut_point(bytes: Seq<u8>, room: int) -> int
    decreases room,
{
    if room <= 0 {
        0
    } else if is_char_boundary(bytes, room) {
        room
    } else {
        cut_point(bytes, room - 1)
    }
}

/// Whether a buffer of `capacity` bytes in `state` (its bytes, and whether
/// it is closed) takes `piece` whole.
pub open spec fn piece_accepted(state: (Seq<u8>, bool), piece: Seq<u8>, capacity: nat) -> bool {
    !state.1 && state.0.len() + piece.len() <= capacity
}

/// A piece is taken whole exactly when the buffer is open and the piece
/// fits in the room left, and then the buffer stays open; a closed buffer,
/// or a piece that does not fit, is refused.
pub proof fn lemma_piece_accepted_exactly_when_it_fits(state: (Seq<u8>, bool), piece: Seq<u8>, capacity: nat)
    ensures
        piece_accepted(state, piece, capacity) <==> !state.1 && state.0.len() + piece.len() <= capacity,
        piece_accepted(state, piece, capacity) <==> offer_piece(state, piece, capacity) == (state.0 + piece, false),
        state.1 ==> !piece_accepted(state, piece, capacity),
{
}

/// The state after `piece` is offered: a closed buffer takes nothing; a
/// piece that fits is taken whole; otherwise the piece is cut to the room
/// left, at its last character boundary, and the buffer closes.
pub open spec fn offer_piece(state: (Seq<u8>, bool), piece: Seq<u8>, capacity: nat) -> (Seq<u8>, bool) {
    if state.1 {
        state
    } else if state.0.len() + piece.len() <= capacity {
        (state.0 + piece, false)
    } else {
        (state.0 + piece.take(cut_point(piece, capacity - state.0.len())), true)
    }
}

/// The state after every piece is offered, in order.
pub open spec fn write_pieces(state: (Seq<u8>, bool), pieces: Seq<Seq<u8>>, capacity: nat) -> (Seq<u8>, bool)
    decreases pieces.len(),
{
    if pieces.len() == 0 {
        state
    } else {
        write_pieces(offer_piece(state, pieces[0], capacity), pieces.drop_first(), capacity)
    }
}

/// All pieces joined end to end.
pub open spec fn join_pieces(pieces: Seq<Seq<u8>>) -> Seq<u8>
    decreases pieces.len(),
{
    if pieces.len() == 0 {
        Seq::empty()
    } else {
        pieces[0] + join_pieces(pieces.drop_first())
    }
}

/// Offering a single piece.
pub proof fn lemma_write_one_piece(state: (Seq<u8>, bool), piece: Seq<u8>, capacity: nat)
    ensures
        write_pieces(state, seq![piece], capacity) == offer_piece(state, piece, capacity),
{
    let one = seq![piece];
    assert(one.drop_first() =~= Seq::<Seq<u8>>::empty());
    assert(one[0] == piece);
    assert(write_pieces(offer_piece(state, piece, capacity), one.drop_first(), capacity) == offer_piece(
        state,
        piece,
        capacity,
    ));
}

/// Offering two runs of pieces one after the other is offering them joined.
pub proof fn lemma_write_pieces_append(
    state: (Seq<u8>, bool),
    first: Seq<Seq<u8>>,
    second: Seq<Seq<u8>>,
    capacity: nat,
)
    ensures
        write_pieces(state, first + second, capacity) == write_pieces(
            write_pieces(state, first, capacity),
            second,
            capacity,
        ),
    decreases first.len(),
{
    if first.len() == 0 {
        assert(first + second =~= second);
    } else {
        assert((first + second)[0] == first[0]);
        assert((first + second).drop_first() =~= first.drop_first() + second);
        lemma_write_pieces_append(offer_piece(state, first[0], capacity), first.drop_first(), second, capacity);
    }
}

/// `text` cut to at most `capacity` bytes at its last character boundary:
/// what a buffer of that capacity keeps of it.
pub open spec fn truncate_text(text: Seq<u8>, capacity: nat) -> Seq<u8> {
    if text.len() <= capacity {
        text
    } else {
        text.take(cut_point(text, capacity as int))
    }
}

/// The cut lies between 0 and the room, no later boundary lies before the
/// room, and the cut is a boundary.
pub proof fn lemma_cut_point_is_last_boundary(bytes: Seq<u8>, room: int)
    requires
        valid_utf8(bytes),
    ensures
        0 <= cut_point(bytes, room),
        room >= 0 ==> cut_point(bytes, room) <= room,
        is_char_boundary(bytes, cut_point(bytes, room)),
        forall|j: int| cut_point(bytes, room) < j <= room ==> !is_char_boundary(bytes, j),
    decreases room,
{
    if room > 0 && !is_char_boundary(bytes, room) {
        lemma_cut_point_is_last_boundary(bytes, room - 1);
    }
}

/// A closed buffer stays as it is.
pub proof fn lemma_closed_takes_nothing(state: (Seq<u8>, bool), pieces: Seq<Seq<u8>>, capacity: nat)
    requires
        state.1,
    ensures
        write_pieces(state, pieces, capacity) == state,
    decreases pieces.len(),
{
    if pieces.len() > 0 {
        lemma_closed_takes_nothing(state, pieces.drop_first(), capacity);
    }
}

/// A buffer within its capacity stays within it: a description never holds
/// more than its capacity.
pub proof fn lemma_write_pieces_within_capacity(state: (Seq<u8>, bool), pieces: Seq<Seq<u8>>, capacity: nat)
    requires
        state.0.len() <= capacity,
        forall|k: int| 0 <= k < pieces.len() ==> valid_utf8(#[trigger] pieces[k]),
    ensures
        write_pieces(state, pieces, capacity).0.len() <= capacity,
    decreases pieces.len(),
{
    if pieces.len() > 0 {
        let p = pieces[0];
        if !state.1 && state.0.len() + p.len() > capacity {
            lemma_cut_point_is_last_boundary(p, capacity - state.0.len());
        }
        assert forall|k: int| 0 <= k < pieces.drop_first().len() implies valid_utf8(
            #[trigger] pieces.drop_first()[k],
        ) by {
            assert(pieces.drop_first()[k] == pieces[k + 1]);
        }
        lemma_write_pieces_within_capacity(offer_piece(state, p, capacity), pieces.drop_first(), capacity);
    }
}

/// A message that fits is kept whole: an open buffer with room for all the
/// pieces takes them all and stays open.
pub proof fn lemma_write_pieces_fits(state: (Seq<u8>, bool), pieces: Seq<Seq<u8>>, capacity: nat)
    requires
        !state.1,
        state.0.len() + join_pieces(pieces).len() <= capacity,
    ensures
        write_pieces(state, pieces, capacity) == (state.0 + join_pieces(pieces), false),
    decreases pieces.len(),
{
    if pieces.len() == 0 {
        assert(state.0 + join_pieces(pieces) =~= state.0);
    } else {
        let p = pieces[0];
        let rest = pieces.drop_first();
        assert(state.0 + join_pieces(pieces) =~= (state.0 + p) + join_pieces(rest));
        lemma_write_pieces_fits((state.0 + p, false), rest, capacity);
    }
}

/// Bytes of two valid texts side by side: a character boundary of the
/// second is one of the whole, shifted by the length of the first.
proof fn lemma_boundary_shift(front: Seq<u8>, piece: Seq<u8>, back: Seq<u8>, j: int)
    requires
        valid_utf8(front),
        valid_utf8(piece),
        valid_utf8(back),
        0 <= j < piece.len(),
    ensures
        is_char_boundary(front + piece + back, front.len() + j) == is_char_boundary(piece, j),
{
    let whole = front + piece + back;
    valid_utf8_concat(front, piece);
    valid_utf8_concat(front + piece, back);
    is_char_boundary_iff_not_is_continuation_byte(whole, front.len() + j);
    is_char_boundary_iff_not_is_continuation_byte(piece, j);
    assert(whole[front.len() + j] == piece[j]);
}

/// Cutting a piece inside a message cuts the message at the same place.
proof fn lemma_cut_point_shift(front: Seq<u8>, piece: Seq<u8>, back: Seq<u8>, room: int)
    requires
        valid_utf8(front),
        valid_utf8(piece),
        valid_utf8(back),
        0 <= room < piece.len(),
    ensures
        cut_point(front + piece + back, front.len() + room) == front.len() + cut_point(piece, room),
    decreases room,
{
    lemma_boundary_shift(front, piece, back, room);
    if room == 0 {
        if front.len() > 0 {
            assert(is_char_boundary(piece, 0));
        }
    } else if !is_char_boundary(piece, room) {
        lemma_cut_point_shift(front, piece, back, room - 1);
    }
}

/// The joined pieces of valid texts are valid.
proof fn lemma_join_valid(pieces: Seq<Seq<u8>>)
    requires
        forall|k: int| 0 <= k < pieces.len() ==> valid_utf8(#[trigger] pieces[k]),
    ensures
        valid_utf8(join_pieces(pieces)),
    decreases pieces.len(),
{
    if pieces.len() == 0 {
        assert(join_pieces(pieces) =~= Seq::<u8>::empty());
        assert(valid_utf8(Seq::<u8>::empty())) by {
            encode_utf8_valid_utf8(Seq::<char>::empty());
            assert(encode_utf8(Seq::<char>::empty()) =~= Seq::<u8>::empty());
        }
    } else {
        assert forall|k: int| 0 <= k < pieces.drop_first().len() implies valid_utf8(
            #[trigger] pieces.drop_first()[k],
        ) by {
            assert(pieces.drop_first()[k] == pieces[k + 1]);
        }
        lemma_join_valid(pieces.drop_first());
        assert(valid_utf8(pieces[0]));
        valid_utf8_concat(pieces[0], join_pieces(pieces.drop_first()));
    }
}

/// Longer text is truncated: an open buffer ends up holding its earlier
/// bytes followed by the whole message, cut to the capacity at the last
/// character boundary; it closes exactly when the message does not fit.
pub proof fn lemma_write_pieces_truncates(state: (Seq<u8>, bool), pieces: Seq<Seq<u8>>, capacity: nat)
    requires
        !state.1,
        state.0.len() <= capacity,
        valid_utf8(state.0),
        forall|k: int| 0 <= k < pieces.len() ==> valid_utf8(#[trigger] pieces[k]),
    ensures
        write_pieces(state, pieces, capacity).0 == truncate_text(state.0 + join_pieces(pieces), capacity),
        write_pieces(state, pieces, capacity).1 <==> state.0.len() + join_pieces(pieces).len() > capacity,
    decreases pieces.len(),
{
    let message = state.0 + join_pieces(pieces);
    if pieces.len() == 0 {
        assert(message =~= state.0);
    } else {
        let p = pieces[0];
        let rest = pieces.drop_first();
        assert forall|k: int| 0 <= k < rest.len() implies valid_utf8(#[trigger] rest[k]) by {
            assert(rest[k] == pieces[k + 1]);
        }
        assert(valid_utf8(p));
        lemma_join_valid(rest);
        assert(message =~= state.0 + p + join_pieces(rest));
        if state.0.len() + p.len() <= capacity {
            valid_utf8_concat(state.0, p);
            assert(message =~= (state.0 + p) + join_pieces(rest));
            lemma_write_pieces_truncates((state.0 + p, false), rest, capacity);
        } else {
            let room = capacity - state.0.len();
            let cut = cut_point(p, room);
            lemma_cut_point_is_last_boundary(p, room);
            lemma_closed_takes_nothing((state.0 + p.take(cut), true), rest, capacity);
            lemma_cut_point_shift(state.0, p, join_pieces(rest), room);
            assert(state.0.len() + room == capacity);
            assert(message.take(cut_point(message, capacity as int)) =~= state.0 + p.take(cut));
        }
    }
}

/// The UTF-8 encoding of two texts one after the other is the encoding of
/// the first followed by that of the second.
pub proof fn lemma_utf8_concat(a: Seq<char>, b: Seq<char>)
    ensures
        utf8_of(a + b) == utf8_of(a) + utf8_of(b),
    decreases a.len(),
{
    if a.len() == 0 {
        assert(a + b =~= b);
        assert(utf8_of(a) + utf8_of(b) =~= utf8_of(b));
    } else {
        assert((a + b)[0] == a[0]);
        assert((a + b).drop_first() =~= a.drop_first() + b);
        lemma_utf8_concat(a.drop_first(), b);
        assert(utf8_of(a + b) =~= utf8_of(a) + utf8_of(b));
    }
}

} // verus!
