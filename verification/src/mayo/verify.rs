//! Checking a MAYO-2 signature in the clear.
use vstd::prelude::*;

use crate::mayo::api;
use crate::mayo::api::{shake256, shake256_32};
use crate::mayo::gf16;
use crate::mayo::gf16::mul_gf16;
use crate::mayo::lanes;
use crate::mayo::lanes::{expand_pk_to_lanes, unpack_nibbles, Entry, PkLanes};
use crate::mayo::params::{
    DIGEST_BYTES, K, M, M_VEC_BYTES, N, O, P2_ENTRIES, SALT_BYTES,
    SIG_BYTES, V,
};

verus! {

/// The blocks of a signature, one nibble per variable.
pub type Blocks = [[u8; 81]; 4];

/// Coefficient `i` of the polynomial that `z^M` is reduced to.
pub open spec fn tail(i: int) -> u8 {
    if i == 0 || i == 3 {
        8
    } else if i == 2 {
        2
    } else {
        0
    }
}

/// Product of the low nibbles of two bytes.
pub open spec fn times(a: u8, b: u8) -> u8 {
    gf16::product(a & 0x0f, b & 0x0f)
}

/// No nibble set.
pub open spec fn none() -> Seq<u8> {
    Seq::new(M as nat, |l: int| 0u8)
}

/// Sum of two vectors.
pub open spec fn plus(a: Seq<u8>, b: Seq<u8>) -> Seq<u8> {
    Seq::new(M as nat, |l: int| a[l] ^ b[l])
}

/// A vector times a nibble.
pub open spec fn scaled(by: u8, a: Seq<u8>) -> Seq<u8> {
    Seq::new(M as nat, |l: int| times(by, a[l]))
}

/// A vector, read as a polynomial in `z`, times `z`.
pub open spec fn times_z(a: Seq<u8>) -> Seq<u8> {
    Seq::new(
        M as nat,
        |l: int|
            {
                let shifted = if l == 0 {
                    0u8
                } else {
                    a[l - 1]
                };
                if tail(l) == 0 {
                    shifted
                } else {
                    shifted ^ times(a[M - 1], tail(l))
                }
            },
    )
}

/// Where row `j` of an upper triangle over `side` variables starts.
pub open spec fn row_start(side: int, j: int) -> int
    decreases j,
{
    if j <= 0 {
        0
    } else {
        row_start(side, j - 1) + side - (j - 1)
    }
}

/// Coefficients of variables `j <= r`, one nibble per equation.
pub open spec fn coefficients(lanes: &PkLanes, j: int, r: int) -> Seq<u8> {
    if r < V {
        lanes.p1@[row_start(V as int, j) + r - j]@
    } else if j < V {
        lanes.p2@[j * O + r - V]@
    } else {
        lanes.p3@[row_start(O as int, j - V) + r - j]@
    }
}

/// Sum over the variables from `j` up to `upto` of their coefficients with `j`, times their values.
pub open spec fn row_sum(lanes: &PkLanes, s: Seq<u8>, j: int, upto: int) -> Seq<u8>
    decreases upto - j,
{
    if upto <= j {
        none()
    } else {
        plus(
            row_sum(lanes, s, j, upto - 1),
            scaled(s[upto - 1], coefficients(lanes, j, upto - 1)),
        )
    }
}

/// Value of the quadratic forms on two blocks, over the first `upto` variables of the first one.
pub open spec fn form(lanes: &PkLanes, a: Seq<u8>, b: Seq<u8>, upto: int) -> Seq<u8>
    decreases upto,
{
    if upto <= 0 {
        none()
    } else {
        plus(
            form(lanes, a, b, upto - 1),
            scaled(a[upto - 1], row_sum(lanes, b, upto - 1, N as int)),
        )
    }
}

/// The pairs of blocks, in the order in which they are combined.
pub open spec fn pairs() -> Seq<(int, int)> {
    seq![
        (3, 3),
        (2, 2),
        (2, 3),
        (1, 1),
        (1, 2),
        (1, 3),
        (0, 0),
        (0, 1),
        (0, 2),
        (0, 3),
    ]
}

/// The first `n` pairs combined: each shifts what came before it by `z` and adds its forms.
pub open spec fn combined(lanes: &PkLanes, s: Blocks, n: int) -> Seq<u8>
    decreases n,
{
    if n <= 0 {
        none()
    } else {
        let (i, j) = pairs()[n - 1];
        let before = times_z(combined(lanes, s, n - 1));
        let first = plus(before, form(lanes, s@[i]@, s@[j]@, N as int));
        if i == j {
            first
        } else {
            plus(first, form(lanes, s@[j]@, s@[i]@, N as int))
        }
    }
}

/// The public map of a key, on the blocks of a signature.
pub open spec fn public_map(lanes: &PkLanes, s: Blocks) -> Seq<u8> {
    combined(lanes, s, 10)
}

/// Twice where a row starts, in closed form.
pub proof fn lemma_row_start(side: int, j: int)
    requires
        0 <= j <= side,
    ensures
        2 * row_start(side, j) == j * (2 * side + 1 - j),
    decreases j,
{
    if j > 0 {
        lemma_row_start(side, j - 1);
        assert((j - 1) * (2 * side + 1 - (j - 1)) + 2 * (side - (j - 1)) == j * (2 * side + 1 - j))
            by (nonlinear_arith);
    } else {
        assert(j * (2 * side + 1 - j) == 0) by (nonlinear_arith)
            requires
                j == 0,
        ;
    }
}

/// Rows end inside the triangle.
pub proof fn lemma_row_ends(side: int, j: int)
    requires
        0 <= j < side,
    ensures
        0 <= row_start(side, j),
        2 * (row_start(side, j) + side - j) <= side * (side + 1),
{
    lemma_row_start(side, j);
    lemma_row_start(side, j + 1);
    assert(j * (2 * side + 1 - j) >= 0) by (nonlinear_arith)
        requires
            0 <= j < side,
    ;
    assert((j + 1) * (2 * side + 1 - (j + 1)) <= side * (side + 1)) by (nonlinear_arith)
        requires
            0 <= j < side,
    ;
    assert(row_start(side, j + 1) == row_start(side, j) + side - j);
}

/// Adds a vector times a nibble.
fn mul_add(sum: &mut Entry, by: u8, a: &Entry)
    ensures
        final(sum)@ == plus(old(sum)@, scaled(by, a@)),
{
    let mut l: usize = 0;
    while l < M
        invariant
            l <= M,
            forall|i: int| 0 <= i < l ==> sum@[i] == old(sum)@[i] ^ times(by, a@[i]),
            forall|i: int| l <= i < M ==> sum@[i] == old(sum)@[i],
        decreases M - l,
    {
        let term: u8 = mul_gf16(by, a[l]);
        sum[l] = sum[l] ^ term;
        l += 1;
    }
    assert(sum@ =~= plus(old(sum)@, scaled(by, a@)));
}

/// Adds a vector.
fn add_to(sum: &mut Entry, a: &Entry)
    ensures
        final(sum)@ == plus(old(sum)@, a@),
{
    let mut l: usize = 0;
    while l < M
        invariant
            l <= M,
            forall|i: int| 0 <= i < l ==> sum@[i] == old(sum)@[i] ^ a@[i],
            forall|i: int| l <= i < M ==> sum@[i] == old(sum)@[i],
        decreases M - l,
    {
        sum[l] = sum[l] ^ a[l];
        l += 1;
    }
    assert(sum@ =~= plus(old(sum)@, a@));
}

/// Multiplies by `z`.
fn shift(a: &Entry) -> (shifted: Entry)
    ensures
        shifted@ == times_z(a@),
{
    let top: u8 = a[M - 1];
    let mut shifted: Entry = [0u8; 64];
    let mut l: usize = 1;
    while l < M
        invariant
            1 <= l <= M,
            shifted@[0] == 0,
            forall|i: int| 1 <= i < l ==> shifted@[i] == a@[i - 1],
        decreases M - l,
    {
        shifted[l] = a[l - 1];
        l += 1;
    }
    shifted[0] = shifted[0] ^ mul_gf16(top, 8);
    shifted[2] = shifted[2] ^ mul_gf16(top, 2);
    shifted[3] = shifted[3] ^ mul_gf16(top, 8);
    assert(shifted@ =~= times_z(a@));
    shifted
}

/// Coefficients of variables `j <= r`, given where the row of `j` starts in its triangle.
fn coefficients_at(lanes: &PkLanes, start: usize, j: usize, r: usize) -> (entry: &Entry)
    requires
        lanes.wf(),
        j <= r < N,
        start == row_start(
            if j < V {
                V as int
            } else {
                O as int
            },
            if j < V {
                j as int
            } else {
                j - V
            },
        ),
    ensures
        entry@ == coefficients(lanes, j as int, r as int),
{
    if r < V {
        proof {
            lemma_row_ends(V as int, j as int);
        }
        &lanes.p1[start + r - j]
    } else if j < V {
        assert(j * 17 + (r - 64) < P2_ENTRIES);
        &lanes.p2[j * O + (r - V)]
    } else {
        proof {
            lemma_row_ends(O as int, j - V);
        }
        &lanes.p3[start + (r - j)]
    }
}

/// Sum over the variables from `j` on of their coefficients with `j`, times their values.
fn sum_row(lanes: &PkLanes, s: &[u8; 81], start: usize, j: usize) -> (sum: Entry)
    requires
        lanes.wf(),
        j < N,
        start == row_start(
            if j < V {
                V as int
            } else {
                O as int
            },
            if j < V {
                j as int
            } else {
                j - V
            },
        ),
    ensures
        sum@ == row_sum(lanes, s@, j as int, N as int),
{
    let mut sum: Entry = [0u8; 64];
    let mut r: usize = j;
    assert(sum@ =~= none());
    while r < N
        invariant
            lanes.wf(),
            j <= r <= N,
            j < N,
            start == row_start(
                if j < V {
                    V as int
                } else {
                    O as int
                },
                if j < V {
                    j as int
                } else {
                    j - V
                },
            ),
            sum@ == row_sum(lanes, s@, j as int, r as int),
        decreases N - r,
    {
        mul_add(&mut sum, s[r], coefficients_at(lanes, start, j, r));
        r += 1;
    }
    sum
}

/// The rows of one block.
fn sum_rows(lanes: &PkLanes, s: &[u8; 81]) -> (rows: Vec<Entry>)
    requires
        lanes.wf(),
    ensures
        rows@.len() == N,
        forall|j: int|
            0 <= j < N ==> (#[trigger] rows@[j])@ == row_sum(lanes, s@, j, N as int),
{
    let mut rows: Vec<Entry> = Vec::new();
    let mut start: usize = 0;
    let mut j: usize = 0;
    while j < N
        invariant
            lanes.wf(),
            j <= N,
            rows@.len() == j,
            forall|i: int|
                0 <= i < j ==> (#[trigger] rows@[i])@ == row_sum(lanes, s@, i, N as int),
            j < N ==> start == row_start(
                if j < V {
                    V as int
                } else {
                    O as int
                },
                if j < V {
                    j as int
                } else {
                    j - V
                },
            ),
        decreases N - j,
    {
        rows.push(sum_row(lanes, s, start, j));
        proof {
            if j < V {
                lemma_row_ends(V as int, j as int);
            } else {
                lemma_row_ends(O as int, j - V);
            }
        }
        if j < V {
            start = start + (V - j);
        } else {
            start = start + (O - (j - V));
        }
        j += 1;
        if j == V {
            start = 0;
        }
    }
    rows
}

/// Value of the quadratic forms on two blocks, given the rows of the second.
fn eval_form(lanes: &PkLanes, a: &[u8; 81], rows: &Vec<Entry>, b: &[u8; 81]) -> (value: Entry)
    requires
        lanes.wf(),
        rows@.len() == N,
        forall|j: int|
            0 <= j < N ==> (#[trigger] rows@[j])@ == row_sum(lanes, b@, j, N as int),
    ensures
        value@ == form(lanes, a@, b@, N as int),
{
    let mut value: Entry = [0u8; 64];
    let mut j: usize = 0;
    assert(value@ =~= none());
    while j < N
        invariant
            j <= N,
            rows@.len() == N,
            forall|j: int|
                0 <= j < N ==> (#[trigger] rows@[j])@ == row_sum(lanes, b@, j, N as int),
            value@ == form(lanes, a@, b@, j as int),
        decreases N - j,
    {
        mul_add(&mut value, a[j], &rows[j]);
        j += 1;
    }
    value
}

/// How many pairs come before those of block `i`.
spec fn pairs_before(i: int) -> int {
    if i == 3 {
        0
    } else if i == 2 {
        1
    } else if i == 1 {
        3
    } else {
        6
    }
}

/// Evaluates the public map of a key on the blocks of a signature.
pub fn eval_public_map(lanes: &PkLanes, s: &Blocks) -> (value: Entry)
    requires
        lanes.wf(),
    ensures
        value@ == public_map(lanes, *s),
{
    let mut rows: Vec<Vec<Entry>> = Vec::new();
    let mut col: usize = 0;
    while col < K
        invariant
            lanes.wf(),
            col <= K,
            rows@.len() == col,
            forall|c: int|
                0 <= c < col ==> (#[trigger] rows@[c])@.len() == N && forall|j: int|
                    0 <= j < N ==> (#[trigger] rows@[c]@[j])@ == row_sum(
                        lanes,
                        s@[c]@,
                        j,
                        N as int,
                    ),
        decreases K - col,
    {
        rows.push(sum_rows(lanes, &s[col]));
        col += 1;
    }
    let mut value: Entry = [0u8; 64];
    assert(value@ =~= none());
    let mut left: usize = K;
    while left > 0
        invariant
            lanes.wf(),
            left <= K,
            rows@.len() == K,
            forall|c: int|
                0 <= c < K ==> (#[trigger] rows@[c])@.len() == N && forall|j: int|
                    0 <= j < N ==> (#[trigger] rows@[c]@[j])@ == row_sum(
                        lanes,
                        s@[c]@,
                        j,
                        N as int,
                    ),
            value@ == combined(
                lanes,
                *s,
                if left == 0 {
                    10
                } else {
                    pairs_before(left - 1)
                },
            ),
        decreases left,
    {
        let i: usize = left - 1;
        let mut j: usize = i;
        while j < K
            invariant
                lanes.wf(),
                i < K,
                i <= j <= K,
                rows@.len() == K,
                forall|c: int|
                    0 <= c < K ==> (#[trigger] rows@[c])@.len() == N && forall|j: int|
                        0 <= j < N ==> (#[trigger] rows@[c]@[j])@ == row_sum(
                            lanes,
                            s@[c]@,
                            j,
                            N as int,
                        ),
                value@ == combined(lanes, *s, pairs_before(i as int) + (j - i)),
            decreases K - j,
        {
            let ghost at = pairs_before(i as int) + (j - i);
            assert(pairs()[at] == (i as int, j as int));
            let ghost before = value@;
            value = shift(&value);
            let first = eval_form(lanes, &s[i], &rows[j], &s[j]);
            add_to(&mut value, &first);
            if i != j {
                let second = eval_form(lanes, &s[j], &rows[i], &s[i]);
                add_to(&mut value, &second);
            }
            assert(value@ == combined(lanes, *s, at + 1));
            j += 1;
        }
        left = i;
    }
    value
}

/// Blocks that a signature packs before its salt.
pub open spec fn blocks_of(sig: Seq<u8>, s: Blocks) -> bool {
    forall|col: int, r: int|
        0 <= col < K && 0 <= r < N ==> #[trigger] s@[col]@[r] == lanes::nibble(sig, col * N + r)
}

/// What the public map has to give for a signature: the nibbles of the hash of digest and salt.
pub open spec fn target_of(msg: Seq<u8>, sig: Seq<u8>) -> Seq<u8> {
    lanes::unpacked(
        api::shake256_of(
            api::shake256_of(msg, DIGEST_BYTES as nat) + sig.skip(SIG_BYTES - SALT_BYTES),
            M_VEC_BYTES as nat,
        ),
        M as nat,
    )
}

/// Unpacks the blocks of a signature.
pub fn unpack_blocks(sig: &[u8; 186]) -> (s: Blocks)
    ensures
        blocks_of(sig@, s),
{
    let flat = unpack_nibbles(sig.as_slice(), K * N);
    let mut s: Blocks = [[0u8; 81]; 4];
    let mut col: usize = 0;
    while col < K
        invariant
            col <= K,
            flat@ == lanes::unpacked(sig@, (K * N) as nat),
            forall|c: int, r: int|
                0 <= c < col && 0 <= r < N ==> #[trigger] s@[c]@[r] == lanes::nibble(
                    sig@,
                    c * N + r,
                ),
        decreases K - col,
    {
        let mut block: [u8; 81] = [0u8; 81];
        let mut r: usize = 0;
        while r < N
            invariant
                col < K,
                r <= N,
                flat@ == lanes::unpacked(sig@, (K * N) as nat),
                forall|i: int|
                    0 <= i < r ==> #[trigger] block@[i] == lanes::nibble(sig@, col * N + i),
            decreases N - r,
        {
            block[r] = flat[col * N + r];
            r += 1;
        }
        s[col] = block;
        col += 1;
    }
    s
}

/// Verifies a signature over a message under a compact public key.
pub fn verify(cpk: &[u8; 4912], msg: &[u8], sig: &[u8; 186]) -> (valid: bool)
    ensures
        forall|lanes: PkLanes, s: Blocks|
            lanes.wf() && lanes::expands(cpk@, &lanes) && blocks_of(sig@, s) ==> valid == (
            #[trigger] public_map(&lanes, s) == target_of(msg@, sig@)),
        forall|lanes: PkLanes, s: Blocks|
            lanes.wf() && lanes::expands(cpk@, &lanes) && blocks_of(sig@, s) ==> valid == (
            #[trigger] public_map(&lanes, s) == lanes::unpacked(
                api::shake256_of(
                    api::shake256_of(msg@, 32) + sig@.subrange(162, 186),
                    32,
                ),
                64,
            )),
{
    assert(sig@.skip(162) =~= sig@.subrange(162, 186));
    let lanes = expand_pk_to_lanes(cpk);
    let digest = shake256_32(msg);
    let mut input: Vec<u8> = Vec::new();
    input.extend_from_slice(digest.as_slice());
    let salt = vstd::slice::slice_subrange(sig.as_slice(), SIG_BYTES - SALT_BYTES, SIG_BYTES);
    input.extend_from_slice(salt);
    assert(salt@ =~= sig@.skip(SIG_BYTES - SALT_BYTES));
    assert(input@ =~= digest@ + salt@);
    let packed = shake256(input.as_slice(), M_VEC_BYTES);
    let target = unpack_nibbles(packed.as_slice(), M);
    let s = unpack_blocks(sig);
    let value = eval_public_map(&lanes, &s);
    proof {
        assert forall|other: PkLanes, t: Blocks|
            other.wf() && lanes::expands(cpk@, &other) && blocks_of(sig@, t) implies (
        #[trigger] public_map(&other, t)) == public_map(&lanes, s) by {
            lemma_same_map(cpk@, &other, &lanes, sig@, t, s);
        }
    }
    let mut l: usize = 0;
    while l < M
        invariant
            l <= M,
            target@.len() == M,
            forall|i: int| 0 <= i < l ==> value@[i] == target@[i],
            target@ == target_of(msg@, sig@),
            value@ == public_map(&lanes, s),
            forall|other: PkLanes, t: Blocks|
                other.wf() && lanes::expands(cpk@, &other) && blocks_of(sig@, t) ==> (
                #[trigger] public_map(&other, t)) == public_map(&lanes, s),
        decreases M - l,
    {
        if value[l] != target[l] {
            return false;
        }
        l += 1;
    }
    assert(value@ =~= target@);
    true
}

/// The map depends on the key and the signature alone.
proof fn lemma_same_map(
    cpk: Seq<u8>,
    a: &PkLanes,
    b: &PkLanes,
    sig: Seq<u8>,
    s: Blocks,
    t: Blocks,
)
    requires
        a.wf(),
        b.wf(),
        lanes::expands(cpk, a),
        lanes::expands(cpk, b),
        blocks_of(sig, s),
        blocks_of(sig, t),
    ensures
        public_map(a, s) == public_map(b, t),
{
    assert forall|c: int| 0 <= c < K implies s@[c] == t@[c] by {
        assert forall|r: int| 0 <= r < N implies s@[c]@[r] == t@[c]@[r] by {
            assert(s@[c]@[r] == lanes::nibble(sig, c * N + r));
        }
        assert(s@[c] =~= t@[c]);
    }
    assert(s =~= t);
    lemma_same_lanes(a, b);
    lemma_same_combined(a, b, s, 10);
}

/// Entries that agree as sequences are the same entries.
proof fn lemma_same_lanes(a: &PkLanes, b: &PkLanes)
    requires
        lanes::entries(a.p1@) == lanes::entries(b.p1@),
        lanes::entries(a.p2@) == lanes::entries(b.p2@),
        lanes::entries(a.p3@) == lanes::entries(b.p3@),
    ensures
        a.p1@ == b.p1@,
        a.p2@ == b.p2@,
        a.p3@ == b.p3@,
{
    lemma_same_entries(a.p1@, b.p1@);
    lemma_same_entries(a.p2@, b.p2@);
    lemma_same_entries(a.p3@, b.p3@);
}

proof fn lemma_same_entries(a: Seq<Entry>, b: Seq<Entry>)
    requires
        lanes::entries(a) == lanes::entries(b),
    ensures
        a == b,
{
    lanes::lemma_entries(a);
    lanes::lemma_entries(b);
    assert forall|i: int| 0 <= i < a.len() implies a[i] == b[i] by {
        assert(lanes::entries(a)[i] == lanes::entries(b)[i]);
        assert(a[i]@ =~= b[i]@);
        assert(a[i] =~= b[i]);
    }
    assert(a =~= b);
}

proof fn lemma_same_rows(a: &PkLanes, b: &PkLanes, s: Seq<u8>, j: int, upto: int)
    requires
        a.p1@ == b.p1@,
        a.p2@ == b.p2@,
        a.p3@ == b.p3@,
    ensures
        row_sum(a, s, j, upto) == row_sum(b, s, j, upto),
    decreases upto - j,
{
    if upto > j {
        lemma_same_rows(a, b, s, j, upto - 1);
    }
}

proof fn lemma_same_forms(a: &PkLanes, b: &PkLanes, s: Seq<u8>, t: Seq<u8>, upto: int)
    requires
        a.p1@ == b.p1@,
        a.p2@ == b.p2@,
        a.p3@ == b.p3@,
    ensures
        form(a, s, t, upto) == form(b, s, t, upto),
    decreases upto,
{
    if upto > 0 {
        lemma_same_forms(a, b, s, t, upto - 1);
        lemma_same_rows(a, b, t, upto - 1, N as int);
    }
}

proof fn lemma_same_combined(a: &PkLanes, b: &PkLanes, s: Blocks, n: int)
    requires
        a.p1@ == b.p1@,
        a.p2@ == b.p2@,
        a.p3@ == b.p3@,
    ensures
        combined(a, s, n) == combined(b, s, n),
    decreases n,
{
    if n > 0 {
        lemma_same_combined(a, b, s, n - 1);
        let (i, j) = pairs()[n - 1];
        lemma_same_forms(a, b, s@[i]@, s@[j]@, N as int);
        lemma_same_forms(a, b, s@[j]@, s@[i]@, N as int);
    }
}

} // verus!
