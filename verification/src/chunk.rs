//! Cutting a stream of items into pieces of a fixed size.

use vstd::prelude::*;
use vstd::std_specs::iter::IteratorSpec;
use vstd::string::StringExecFns;

verus! {

/// The number of pieces that `len` items make when each piece holds `size`
/// of them and the last one holds what is left.
pub open spec fn chunk_count(len: nat, size: nat) -> nat {
    if size == 0 {
        0
    } else {
        ((len + size - 1) / (size as int)) as nat
    }
}

/// Piece number `i` of `items`: the items from place `i * size` up to place
/// `(i + 1) * size`, or up to the end where that comes first.
pub open spec fn chunk_at<T>(items: Seq<T>, size: nat, i: int) -> Seq<T> {
    let end = if (i + 1) * size <= items.len() {
        (i + 1) * size
    } else {
        items.len() as int
    };
    items.subrange(i * size, end)
}

/// `items` cut into pieces of `size`, in their order.
pub open spec fn chunks<T>(items: Seq<T>, size: nat) -> Seq<Seq<T>> {
    Seq::new(chunk_count(items.len(), size), |i: int| chunk_at(items, size, i))
}

/// The contents of a vector of vectors.
pub open spec fn contents<T>(pieces: Seq<Vec<T>>) -> Seq<Seq<T>> {
    pieces.map_values(|piece: Vec<T>| piece@)
}

/// What is reported when the size of a piece is zero.
pub open spec fn zero_size_message() -> Seq<char> {
    "chunk size must be greater than zero"@
}

/// What is reported when strict cutting leaves a short last piece.
pub open spec fn short_chunk_message() -> Seq<char> {
    "strict mode: the final chunk would be undersized"@
}

/// Each of `pieces` is a whole piece of `items`: piece number `i` holds the
/// `size` items from place `i * size` on.
spec fn whole_pieces<T>(pieces: Seq<Vec<T>>, items: Seq<T>, size: nat) -> bool {
    forall|i: int|
        0 <= i < pieces.len() ==> (#[trigger] pieces[i])@ == chunk_at(items, size, i) && (i + 1)
            * size <= items.len()
}

/// `full` whole pieces and `part` more items, fewer than a piece, make
/// `full` pieces, and one more where `part` is not zero.
proof fn lemma_chunk_count(full: nat, part: nat, size: nat)
    requires
        size > 0,
        part < size,
    ensures
        chunk_count(full * size + part, size) == full + if part > 0 {
            1nat
        } else {
            0nat
        },
        (full * size + part) % size == part,
{
    let len = (full * size + part) as int;
    let s = size as int;
    let q = full as int;
    let r = part as int;
    if part > 0 {
        assert(len + s - 1 == (q + 1) * s + (r - 1)) by (nonlinear_arith)
            requires
                len == q * s + r,
        ;
        vstd::arithmetic::div_mod::lemma_fundamental_div_mod_converse(len + s - 1, s, q + 1, r - 1);
    } else {
        assert(len + s - 1 == q * s + (s - 1)) by (nonlinear_arith)
            requires
                len == q * s + r,
                r == 0,
        ;
        vstd::arithmetic::div_mod::lemma_fundamental_div_mod_converse(len + s - 1, s, q, s - 1);
    }
    vstd::arithmetic::div_mod::lemma_fundamental_div_mod_converse(len, s, q, r);
}

/// Collects the items of `iter` into pieces of `size`, in their order.
///
/// A `size` of zero is an error. The last piece holds what is left, which
/// may be less than `size`; with `strict` set a short last piece is an error
/// instead. The iterator is walked once, to its end.
///
/// Only an iterator that ends can be collected: `iter` has to keep the laws
/// of iteration and to carry a measure that falls with every item, as the
/// iterators of std do.
pub fn chunk<T, I: Iterator<Item = T>>(iter: I, size: usize, strict: bool) -> (r: Result<
    Vec<Vec<T>>,
    String,
>)
    requires
        iter.obeys_prophetic_iter_laws(),
        iter.decrease() is Some,
    ensures
        match r {
            Ok(pieces) => {
                &&& size > 0
                &&& strict ==> iter.remaining().len() % (size as nat) == 0
                &&& contents(pieces@) == chunks(iter.remaining(), size as nat)
            },
            Err(message) => if size == 0 {
                message@ == zero_size_message()
            } else {
                &&& strict
                &&& iter.remaining().len() % (size as nat) != 0
                &&& message@ == short_chunk_message()
            },
        },
{
    if size == 0 {
        return Err(String::from_str("chunk size must be greater than zero"));
    }
    let ghost items = iter.remaining();
    let mut source = iter;
    let mut pieces: Vec<Vec<T>> = Vec::new();
    let mut current: Vec<T> = Vec::new();
    proof {
        assert(pieces.len() * size == 0) by (nonlinear_arith)
            requires
                pieces.len() == 0,
        ;
        assert(iter.remaining() =~= items.skip(0));
        assert(current@ =~= items.subrange(0, 0));
    }
    loop
        invariant
            size > 0,
            source.obeys_prophetic_iter_laws(),
            source.decrease() is Some,
            current.len() < size,
            pieces.len() * size + current.len() + source.remaining().len() == items.len(),
            source.remaining() == items.skip(pieces.len() * size + current.len()),
            current@ == items.subrange(pieces.len() * size, pieces.len() * size + current.len()),
            whole_pieces(pieces@, items, size as nat),
        ensures
            pieces.len() * size + current.len() == items.len(),
        decreases source.decrease()->0,
    {
        let ghost full = pieces.len() as int;
        let ghost part = current.len() as int;
        let ghost done = pieces@;
        match source.next() {
            Some(item) => {
                current.push(item);
                proof {
                    assert(item == items[full * size + part]);
                    assert(source.remaining() =~= items.skip(full * size + part + 1));
                    assert(current@ =~= items.subrange(full * size, full * size + part + 1));
                }
                if current.len() == size {
                    let ghost whole = current@;
                    pieces.push(current);
                    current = Vec::new();
                    proof {
                        assert((full + 1) * size == full * size + size) by (nonlinear_arith);
                        assert(current@ =~= items.subrange((full + 1) * size, (full + 1) * size));
                        assert(whole == chunk_at(items, size as nat, full));
                        assert forall|i: int| 0 <= i < pieces.len() implies (
                        #[trigger] pieces@[i])@ == chunk_at(items, size as nat, i) && (i + 1)
                            * size <= items.len() by {
                            if i < full {
                                assert(pieces@[i] == done[i]);
                            } else {
                                assert(pieces@[i]@ == whole);
                            }
                        }
                        assert(whole_pieces(pieces@, items, size as nat));
                    }
                } else {
                    proof {
                        assert(pieces@ == done);
                        assert(whole_pieces(pieces@, items, size as nat));
                    }
                }
            },
            None => {
                break ;
            },
        }
    }
    let ghost full = pieces.len() as nat;
    let ghost part = current.len() as nat;
    proof {
        lemma_chunk_count(full, part, size as nat);
    }
    if current.len() > 0 {
        if strict {
            return Err(String::from_str("strict mode: the final chunk would be undersized"));
        }
        pieces.push(current);
    }
    proof {
        let got = contents(pieces@);
        let want = chunks(items, size as nat);
        assert(got.len() == want.len());
        assert forall|i: int| 0 <= i < got.len() implies got[i] == want[i] by {
            if i >= full {
                assert((full + 1) * size == full * size + size) by (nonlinear_arith);
            }
        }
        assert(got =~= want);
    }
    Ok(pieces)
}

} // verus!
