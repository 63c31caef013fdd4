use vstd::prelude::*;

verus! {

pub open spec fn strs_view(v: Seq<String>) -> Seq<Seq<char>> {
    v.map_values(|s: String| s@)
}

/// The first position of `x` in `s`, or -1 when `x` does not occur.
pub open spec fn index_of(s: Seq<Seq<char>>, x: Seq<char>) -> int
    decreases s.len(),
{
    if s.len() == 0 {
        -1
    } else if s[0] == x {
        0
    } else {
        let k = index_of(s.drop_first(), x);
        if k < 0 { -1 } else { k + 1 }
    }
}

pub broadcast proof fn lemma_index_of(s: Seq<Seq<char>>, x: Seq<char>)
    ensures
        -1 <= #[trigger] index_of(s, x) < s.len(),
        index_of(s, x) >= 0 ==> s[index_of(s, x)] == x,
        forall|j: int| 0 <= j < index_of(s, x) ==> s[j] != x,
        index_of(s, x) < 0 ==> forall|j: int| 0 <= j < s.len() ==> s[j] != x,
    decreases s.len(),
{
    if s.len() > 0 && s[0] != x {
        lemma_index_of(s.drop_first(), x);
        assert forall|j: int| 0 <= j < index_of(s, x) implies s[j] != x by {
            if j > 0 {
                assert(s[j] == s.drop_first()[j - 1]);
            }
        }
        if index_of(s, x) < 0 {
            assert forall|j: int| 0 <= j < s.len() implies s[j] != x by {
                if j > 0 {
                    assert(s[j] == s.drop_first()[j - 1]);
                }
            }
        }
    }
}

/// The first position of `name` among `cols`.
pub fn position(cols: &Vec<String>, name: &String) -> (r: Option<usize>)
    ensures
        match r {
            Some(i) => i == index_of(strs_view(cols@), name@),
            None => index_of(strs_view(cols@), name@) == -1,
        },
{
    let ghost s = strs_view(cols@);
    let mut i: usize = 0;
    while i < cols.len()
        invariant
            i <= cols.len(),
            s == strs_view(cols@),
            forall|j: int| 0 <= j < i ==> s[j] != name@,
        decreases cols.len() - i,
    {
        if cols[i] == *name {
            proof {
                let q = index_of(s, name@);
                lemma_index_of(s, name@);
                assert(s[i as int] == name@);
                assert(q != -1);
                assert(!(q < i) && !(q > i));
            }
            return Some(i);
        }
        i = i + 1;
    }
    proof {
        lemma_index_of(s, name@);
        let q = index_of(s, name@);
        if q >= 0 {
            assert(s[q] == name@);
        }
    }
    None
}

} // verus!
