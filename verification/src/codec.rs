//! The compressed form of a board and its textual wrapping. A board travels
//! as a flattened list of chunks `[value, count, index_1 .. index_count]`,
//! values ascending and indices ascending within a chunk, and that list may
//! in turn be wrapped in base64 to pass as a single command-line token.

use vstd::prelude::*;
use crate::grid::grid_wf;

verus! {

/// The list is a well-formed sequence of chunks from position `j` on: each
/// chunk is `[value, count, index_1 .. index_count]` with `count >= 1` and
/// every index below 81.
pub open spec fn wf_list_from(l: Seq<u8>, j: int) -> bool
    decreases l.len() - j,
    when 0 <= j <= l.len()
{
    if j == l.len() {
        true
    } else {
        &&& j + 2 <= l.len()
        &&& 1 <= l[j + 1]
        &&& j + 2 + l[j + 1] <= l.len()
        &&& (forall|t: int| j + 2 <= t < j + 2 + l[j + 1] ==> l[t] < 81)
        &&& wf_list_from(l, j + 2 + l[j + 1])
    }
}

/// A well-formed flattened list.
pub open spec fn wf_list(l: Seq<u8>) -> bool {
    wf_list_from(l, 0)
}

/// Writes value `v` at the cells indexed by `l[from .. from + cnt]`, in order.
pub open spec fn apply_run(b: Seq<u8>, l: Seq<u8>, v: u8, from: int, cnt: int) -> Seq<u8>
    decreases cnt,
    when cnt >= 0
{
    if cnt <= 0 {
        b
    } else {
        apply_run(b.update(l[from] as int, v), l, v, from + 1, cnt - 1)
    }
}

/// Applies the chunks of `l` from position `j` on to the board `b`.
pub open spec fn apply_list_from(l: Seq<u8>, j: int, b: Seq<u8>) -> Seq<u8>
    decreases l.len() - j,
    when 0 <= j
{
    if j + 2 > l.len() {
        b
    } else if l[j + 1] < 1 || j + 2 + l[j + 1] > l.len() {
        b
    } else {
        apply_list_from(l, j + 2 + l[j + 1], apply_run(b, l, l[j], j + 2, l[j + 1] as int))
    }
}

/// The all-unassigned board.
pub open spec fn blank_board() -> Seq<u8> {
    Seq::new(81, |i: int| 0u8)
}

/// Checks that a flattened list is a well-formed sequence of chunks.
#[verifier::loop_isolation(false)]
pub fn check_list(list: &Vec<u8>) -> (r: bool)
    ensures
        r == wf_list(list@),
{
    let n = list.len();
    let mut j: usize = 0;
    while j < n
        invariant
            j <= n,
            n == list@.len(),
            wf_list(list@) <==> wf_list_from(list@, j as int),
        decreases n - j,
    {
        if n - j < 2 {
            return false;
        }
        let k = list[j + 1];
        if k < 1 {
            return false;
        }
        if (k as usize) > n - j - 2 {
            return false;
        }
        let mut t: usize = 0;
        while t < k as usize
            invariant
                t <= k,
                j + 2 + k <= n,
                n == list@.len(),
                forall|u: int| j + 2 <= u < j + 2 + t ==> list@[u] < 81,
            decreases k - t,
        {
            if list[j + 2 + t] >= 81 {
                return false;
            }
            t += 1;
        }
        j = j + 2 + k as usize;
    }
    true
}

/// Unflattens a list into an uncompressed game board.
///
/// The uncompressed game board is an 81-element vector representing the 9x9
/// board, indexed left-to-right, then top-down. An unassigned cell holds
/// value 0; an assigned cell holds the assigned value.
#[verifier::loop_isolation(false)]
pub fn unflatten(list: &Vec<u8>) -> (board: Vec<u8>)
    requires
        wf_list(list@),
    ensures
        board@ == apply_list_from(list@, 0, blank_board()),
        board@.len() == 81,
{
    let mut board: Vec<u8> = Vec::new();
    let mut z: usize = 0;
    while z < 81
        invariant
            board@.len() == z,
            z <= 81,
            forall|t: int| 0 <= t < z ==> board@[t] == 0,
        decreases 81 - z,
    {
        board.push(0);
        z += 1;
    }
    proof {
        assert(board@ =~= blank_board());
    }
    let n = list.len();
    let mut j: usize = 0;
    while j < n
        invariant
            j <= n,
            n == list@.len(),
            board@.len() == 81,
            wf_list_from(list@, j as int),
            apply_list_from(list@, 0, blank_board()) == apply_list_from(list@, j as int, board@),
        decreases n - j,
    {
        let v = list[j];
        let k = list[j + 1];
        let ghost b0 = board@;
        let mut t: usize = 0;
        while t < k as usize
            invariant
                t <= k,
                j + 2 + k <= n,
                n == list@.len(),
                board@.len() == 81,
                forall|u: int| j + 2 <= u < j + 2 + k ==> list@[u] < 81,
                apply_run(b0, list@, v, j + 2, k as int) == apply_run(
                    board@,
                    list@,
                    v,
                    j + 2 + t,
                    k - t,
                ),
            decreases k - t,
        {
            let idx = list[j + 2 + t];
            board[idx as usize] = v;
            t += 1;
        }
        j = j + 2 + k as usize;
    }
    board
}

/// Indices (ascending) of the cells among the first `ub` that hold `v`.
pub open spec fn indices_of(g: Seq<u8>, v: u8, ub: int) -> Seq<u8>
    decreases ub,
    when ub >= 0
{
    if ub <= 0 {
        Seq::empty()
    } else {
        indices_of(g, v, ub - 1) + (if g[ub - 1] == v {
            seq![(ub - 1) as u8]
        } else {
            Seq::empty()
        })
    }
}

/// The chunk a value contributes to the flattened form: the value, how often
/// it occurs, then the indices where — or nothing when it does not occur.
pub open spec fn chunk_of(g: Seq<u8>, v: u8) -> Seq<u8> {
    if indices_of(g, v, 81).len() == 0 {
        Seq::empty()
    } else {
        seq![v, indices_of(g, v, 81).len() as u8] + indices_of(g, v, 81)
    }
}

/// The flattened form of a board: the chunks of the values 1..=n, ascending.
pub open spec fn encode_upto(g: Seq<u8>, n: int) -> Seq<u8>
    decreases n,
    when n >= 0
{
    if n <= 0 {
        Seq::empty()
    } else {
        encode_upto(g, n - 1) + chunk_of(g, n as u8)
    }
}

/// Flattens a game board into a compressed list.
///
/// The compressed list contains, for each value in play on the game board:
/// the value, the number of its occurrences, and the indices where it
/// occurs; values and indices are encoded in ascending order.
#[verifier::loop_isolation(false)]
pub fn flatten(board: &Vec<u8>) -> (list: Vec<u8>)
    requires
        grid_wf(board@),
    ensures
        list@ == encode_upto(board@, 9),
{
    let mut list: Vec<u8> = Vec::new();
    let mut v: u8 = 1;
    while v <= 9
        invariant
            1 <= v <= 10,
            list@ == encode_upto(board@, v - 1),
        decreases 10 - v,
    {
        let mut idxs: Vec<u8> = Vec::new();
        let mut i: usize = 0;
        while i < 81
            invariant
                i <= 81,
                idxs@ == indices_of(board@, v, i as int),
                idxs@.len() <= i,
            decreases 81 - i,
        {
            if board[i] == v {
                idxs.push(i as u8);
                proof {
                    assert(idxs@ =~= indices_of(board@, v, i + 1));
                }
            }
            i += 1;
        }
        if idxs.len() > 0 {
            let ghost l0 = list@;
            let cnt = idxs.len() as u8;
            list.push(v);
            list.push(cnt);
            let ghost mid = list@;
            proof {
                assert(mid =~= l0 + seq![v, cnt]);
            }
            list.append(&mut idxs);
            proof {
                assert(list@ =~= encode_upto(board@, v as int));
            }
        }
        v += 1;
    }
    list
}

/// The base64 text of a byte sequence, exactly as the base64 crate's
/// standard, padded alphabet produces it.
pub uninterp spec fn b64_of(bytes: Seq<u8>) -> Seq<char>;

/// What base64 decoding yields of a text: the decoded bytes, or nothing when
/// the text is not valid standard base64.
pub uninterp spec fn b64_decoded(text: Seq<char>) -> Option<Seq<u8>>;

/// Relies on base64::encode (standard alphabet, padded): the text is a
/// function of the input bytes alone. The length bound keeps clear of the
/// output-size overflow on which base64::encode panics.
#[verifier::external_body]
fn b64_encode(bytes: &Vec<u8>) -> (r: String)
    requires
        bytes@.len() <= usize::MAX / 4,
    ensures
        r@ == b64_of(bytes@),
{
    base64::encode(bytes)
}

/// Relies on base64::decode (standard alphabet, padded): success and the
/// decoded bytes are a function of the text alone. The length bound keeps
/// clear of the buffer-size overflows on which base64::decode panics (a
/// char takes at most four bytes).
#[verifier::external_body]
fn b64_decode(text: &str) -> (r: Result<Vec<u8>, base64::DecodeError>)
    requires
        text@.len() <= usize::MAX / 8,
    ensures
        r matches Ok(l) ==> b64_decoded(text@) == Some(l@),
        r is Err ==> b64_decoded(text@) is None,
{
    base64::decode(text)
}

#[verifier::external_type_specification]
#[verifier::external_body]
pub struct ExDecodeError(base64::DecodeError);

/// Why a textual seed was rejected.
#[derive(PartialEq, Eq, Structural, Debug)]
pub enum SeedError {
    /// The text is not valid base64.
    BadBase64,
    /// The decoded bytes are not a well-formed flattened list.
    BadList,
}

/// Encodes a flattened list as the textual game seed.
pub fn list_to_seed(list: &Vec<u8>) -> (r: String)
    requires
        list@.len() <= usize::MAX / 4,
    ensures
        r@ == b64_of(list@),
{
    b64_encode(list)
}

/// Decodes a textual game seed into the raw 81-cell board it denotes.
pub fn seed_to_board(seed: &str) -> (r: Result<Vec<u8>, SeedError>)
    requires
        seed@.len() <= usize::MAX / 8,
    ensures
        r is Ok <==> (b64_decoded(seed@) matches Some(l) && wf_list(l)),
        r matches Ok(b) ==> (b64_decoded(seed@) matches Some(l) && b@ == apply_list_from(
            l,
            0,
            blank_board(),
        ) && b@.len() == 81),
        r matches Err(e) ==> (e is BadBase64 <==> b64_decoded(seed@) is None),
{
    let bytes = match b64_decode(seed) {
        Ok(b) => b,
        Err(_) => {
            return Err(SeedError::BadBase64);
        },
    };
    if check_list(&bytes) {
        Ok(unflatten(&bytes))
    } else {
        Err(SeedError::BadList)
    }
}

} // verus!
