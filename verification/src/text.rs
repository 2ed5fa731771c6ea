//! Verified helpers on string slices.

use vstd::prelude::*;

verus! {

/// Character-for-character equality of two string slices.
pub fn str_eq(a: &str, b: &str) -> (r: bool)
    ensures
        r == (a@ == b@),
{
    let la = a.unicode_len();
    let lb = b.unicode_len();
    if la != lb {
        return false;
    }
    let mut i: usize = 0;
    while i < la
        invariant
            i <= la,
            la as int == a@.len(),
            la as int == b@.len(),
            forall|j: int| 0 <= j < i ==> a@[j] == b@[j],
        ensures
            i <= la,
            i < la ==> a@[i as int] != b@[i as int],
            i == la ==> forall|j: int| 0 <= j < i ==> a@[j] == b@[j],
        decreases la - i,
    {
        if a.get_char(i) != b.get_char(i) {
            break;
        }
        i = i + 1;
    }
    if i < la {
        proof {
            assert(a@ != b@);
        }
        false
    } else {
        proof {
            assert(a@ =~= b@);
        }
        true
    }
}

/// The parts joined with `sep` between each neighbouring pair.
pub open spec fn sp_join(parts: Seq<Seq<char>>, sep: Seq<char>) -> Seq<char>
    decreases parts.len(),
{
    if parts.len() == 0 {
        seq![]
    } else if parts.len() == 1 {
        parts[0]
    } else {
        parts[0] + sep + sp_join(parts.drop_first(), sep)
    }
}

/// Joining one more part appends a separator and the part.
pub proof fn lemma_join_snoc(parts: Seq<Seq<char>>, sep: Seq<char>, x: Seq<char>)
    ensures
        sp_join(parts.push(x), sep) == if parts.len() == 0 {
            x
        } else {
            sp_join(parts, sep) + sep + x
        },
    decreases parts.len(),
{
    let p = parts.push(x);
    if parts.len() == 0 {
        assert(p.len() == 1);
        assert(p[0] == x);
    } else if parts.len() == 1 {
        assert(p.drop_first() =~= seq![x]);
        assert(sp_join(p.drop_first(), sep) == x);
        assert(p[0] == parts[0]);
        assert(sp_join(parts, sep) == parts[0]);
    } else {
        assert(p.drop_first() =~= parts.drop_first().push(x));
        lemma_join_snoc(parts.drop_first(), sep, x);
        assert(p[0] == parts[0]);
        assert(parts[0] + sep + (sp_join(parts.drop_first(), sep) + sep + x) =~= (parts[0] + sep
            + sp_join(parts.drop_first(), sep)) + sep + x);
    }
}

/// Joins the parts with `sep` between each neighbouring pair; mirrors
/// [`sp_join`].
pub fn join(parts: &Vec<String>, sep: &str) -> (r: String)
    ensures
        r@ == sp_join(parts@.map_values(|s: String| s@), sep@),
{
    let ghost pv = parts@.map_values(|s: String| s@);
    let n = parts.len();
    let mut out = String::new();
    let mut k: usize = 0;
    proof {
        assert(pv.take(0) =~= Seq::<Seq<char>>::empty());
        assert(out@ =~= sp_join(pv.take(0), sep@));
    }
    while k < n
        invariant
            k <= n,
            n == parts@.len(),
            pv == parts@.map_values(|s: String| s@),
            out@ == sp_join(pv.take(k as int), sep@),
        decreases n - k,
    {
        if k > 0 {
            out.append(sep);
        }
        out.append(parts[k].as_str());
        proof {
            let taken = pv.take(k + 1);
            assert(taken.drop_last() =~= pv.take(k as int));
            assert(taken.last() == pv[k as int]);
            assert(pv[k as int] == parts@[k as int]@);
            lemma_join_snoc(pv.take(k as int), sep@, pv[k as int]);
            assert(pv.take(k as int).push(pv[k as int]) =~= taken);
            if k == 0 {
                assert(out@ =~= sp_join(taken, sep@));
            } else {
                assert(out@ =~= sp_join(taken, sep@));
            }
        }
        k = k + 1;
    }
    proof {
        assert(pv.take(n as int) =~= pv);
    }
    out
}

} // verus!
