use vstd::prelude::*;
use vstd::set_lib::{lemma_int_range, lemma_len_subset, set_int_range};
use vstd::arithmetic::div_mod::lemma_fundamental_div_mod_converse;
use vstd::arithmetic::mul::{lemma_mul_inequality, lemma_mul_strictly_positive};

verus! {

/// A sequence of pairwise distinct integers drawn from `0..b` has at most `b` entries.
pub proof fn lemma_distinct_bounded(codes: Seq<int>, b: int)
    requires
        0 <= b,
        codes.no_duplicates(),
        forall|i: int| 0 <= i < codes.len() ==> 0 <= #[trigger] codes[i] < b,
    ensures
        codes.len() <= b,
{
    {
        codes.unique_seq_to_set();
        lemma_int_range(0, b);
        assert forall|x: int| codes.to_set().contains(x) implies set_int_range(0, b).contains(x) by {
            let i = choose|i: int| 0 <= i < codes.len() && codes[i] == x;
            assert(0 <= codes[i] < b);
        }
        lemma_len_subset(codes.to_set(), set_int_range(0, b));
        assert(codes.to_set().len() <= set_int_range(0, b).len());
        assert(codes.len() == codes.to_set().len());
    }
}

pub open spec fn pow256(k: nat) -> nat
    decreases k,
{
    if k == 0 {
        1
    } else {
        256 * pow256((k - 1) as nat)
    }
}

/// Reads a byte string as a base-256 number, last byte least significant.
pub open spec fn byte_code(s: Seq<u8>) -> nat
    decreases s.len(),
{
    if s.len() == 0 {
        0
    } else {
        s.last() as nat + 256 * byte_code(s.drop_last())
    }
}

pub proof fn lemma_byte_code_bound(s: Seq<u8>)
    ensures
        byte_code(s) < pow256(s.len()),
        pow256(s.len()) >= 1,
    decreases s.len(),
{
    if s.len() > 0 {
        lemma_byte_code_bound(s.drop_last());
        let r = byte_code(s.drop_last()) as int;
        let p = pow256(s.drop_last().len()) as int;
        lemma_mul_inequality(r + 1, p, 256);
        assert(s.last() as int <= 255);
    }
}

pub proof fn lemma_byte_code_injective(s: Seq<u8>, t: Seq<u8>)
    requires
        s.len() == t.len(),
        byte_code(s) == byte_code(t),
    ensures
        s == t,
    decreases s.len(),
{
    if s.len() > 0 {
        let x = byte_code(s) as int;
        lemma_fundamental_div_mod_converse(x, 256, byte_code(s.drop_last()) as int, s.last() as int);
        lemma_fundamental_div_mod_converse(x, 256, byte_code(t.drop_last()) as int, t.last() as int);
        lemma_byte_code_injective(s.drop_last(), t.drop_last());
        assert(s =~= s.drop_last().push(s.last()));
        assert(t =~= t.drop_last().push(t.last()));
    } else {
        assert(s =~= t);
    }
}

/// Packs a triple `(a, h, c)` with `h < m` and `c < p` into one number.
pub open spec fn triple_code(a: int, h: int, c: int, m: int, p: int) -> int {
    (a * m + h) * p + c
}

pub proof fn lemma_triple_code(a: int, h: int, c: int, a2: int, h2: int, c2: int, m: int, p: int, top: int)
    requires
        0 <= a < top,
        0 <= a2 < top,
        0 <= h < m,
        0 <= h2 < m,
        0 <= c < p,
        0 <= c2 < p,
    ensures
        0 <= triple_code(a, h, c, m, p) < top * m * p,
        triple_code(a, h, c, m, p) == triple_code(a2, h2, c2, m, p) ==> (a == a2 && h == h2 && c == c2),
{
    let x = triple_code(a, h, c, m, p);
    lemma_mul_strictly_positive(m, p);
    assert(0 <= a * m + h < top * m) by (nonlinear_arith)
        requires 0 <= a < top, 0 <= h < m;
    assert(0 <= x < top * m * p) by (nonlinear_arith)
        requires 0 <= a * m + h < top * m, 0 <= c < p, x == (a * m + h) * p + c;
    if x == triple_code(a2, h2, c2, m, p) {
        assert(0 <= a2 * m + h2) by (nonlinear_arith)
            requires 0 <= a2, 0 <= h2, 0 < m;
        lemma_fundamental_div_mod_converse(x, p, a * m + h, c);
        lemma_fundamental_div_mod_converse(x, p, a2 * m + h2, c2);
        lemma_fundamental_div_mod_converse(a * m + h, m, a, h);
        lemma_fundamental_div_mod_converse(a2 * m + h2, m, a2, h2);
    }
}

} // verus!
