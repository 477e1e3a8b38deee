use vstd::prelude::*;

verus! {

/// The characters of an optional string.
pub open spec fn opt_chars(o: Option<String>) -> Option<Seq<char>> {
    match o {
        Some(s) => Some(s@),
        None => None,
    }
}

/// Whether two optional strings hold the same characters.
pub fn same_opt_string(a: &Option<String>, b: &Option<String>) -> (r: bool)
    ensures
        r == (opt_chars(*a) == opt_chars(*b)),
{
    match (a, b) {
        (Some(x), Some(y)) => *x == *y,
        (None, None) => true,
        _ => false,
    }
}

/// The character sequences of a sequence of strings.
pub open spec fn strings_view(v: Seq<String>) -> Seq<Seq<char>> {
    v.map_values(|s: String| s@)
}

/// No string occurs twice.
pub open spec fn distinct_strings(v: Seq<String>) -> bool {
    forall|x: int, y: int| 0 <= x < y < v.len() ==> v[x]@ != v[y]@
}

/// Whether `v` holds a string equal to `s`.
pub fn contains_string(v: &Vec<String>, s: &String) -> (r: bool)
    ensures
        r == strings_view(v@).contains(s@),
{
    let mut i: usize = 0;
    while i < v.len()
        invariant
            i <= v@.len(),
            forall|j: int| 0 <= j < i ==> v@[j]@ != s@,
        decreases v@.len() - i,
    {
        if v[i] == *s {
            assert(strings_view(v@)[i as int] == s@);
            return true;
        }
        i = i + 1;
    }
    false
}

/// Appends the strings of `more` to `out`.
pub fn extend_strings(out: &mut Vec<String>, more: &Vec<String>)
    ensures
        distinct_strings(old(out)@) ==> distinct_strings(final(out)@),
        forall|u: Seq<char>| #[trigger] strings_view(final(out)@).contains(u) <==> strings_view(old(out)@).contains(u)
            || strings_view(more@).contains(u),
{
    let ghost base = out@;
    let mut k: usize = 0;
    while k < more.len()
        invariant
            k <= more@.len(),
            forall|u: Seq<char>| #[trigger] strings_view(out@).contains(u) <==> strings_view(base).contains(u)
                || strings_view(more@.subrange(0, k as int)).contains(u),
            distinct_strings(base) ==> distinct_strings(out@),
            base == old(out)@,
        decreases more@.len() - k,
    {
        let ghost prev = out@;
        if contains_string(out, &more[k]) {
            proof {
                let sp = strings_view(more@.subrange(0, k as int));
                let sn = strings_view(more@.subrange(0, k + 1));
                assert(sn =~= sp.push(more@[k as int]@));
                assert forall|u: Seq<char>| #[trigger] strings_view(out@).contains(u) <==> strings_view(base).contains(u)
                    || sn.contains(u) by {
                    if sp.contains(u) {
                        let x = choose|x: int| 0 <= x < sp.len() && sp[x] == u;
                        assert(sn[x] == u);
                    }
                    if sn.contains(u) {
                        let x = choose|x: int| 0 <= x < sn.len() && sn[x] == u;
                        if x < k {
                            assert(sp[x] == u);
                        }
                    }
                }
            }
            k = k + 1;
            continue;
        }
        out.push(more[k].clone());
        proof {
            assert forall|u: Seq<char>| #[trigger] strings_view(out@).contains(u) <==> strings_view(base).contains(u)
                || strings_view(more@.subrange(0, k + 1)).contains(u) by {
                let sp = strings_view(more@.subrange(0, k as int));
                let sn = strings_view(more@.subrange(0, k + 1));
                assert(sn =~= sp.push(more@[k as int]@));
                assert(strings_view(out@) =~= strings_view(prev).push(more@[k as int]@));
                assert(strings_view(prev).contains(u) <==> strings_view(base).contains(u) || sp.contains(u));
                if strings_view(out@).contains(u) {
                    let x = choose|x: int| 0 <= x < strings_view(out@).len() && strings_view(out@)[x] == u;
                    if x < prev.len() {
                        assert(strings_view(prev)[x] == u);
                    } else {
                        assert(sn[k as int] == u);
                    }
                }
                if sp.contains(u) {
                    let x = choose|x: int| 0 <= x < sp.len() && sp[x] == u;
                    assert(sn[x] == u);
                }
                if sn.contains(u) {
                    let x = choose|x: int| 0 <= x < sn.len() && sn[x] == u;
                    if x < k {
                        assert(sp[x] == u);
                    } else {
                        assert(strings_view(out@)[prev.len() as int] == u);
                    }
                }
                if strings_view(prev).contains(u) {
                    let x = choose|x: int| 0 <= x < strings_view(prev).len() && strings_view(prev)[x] == u;
                    assert(strings_view(out@)[x] == u);
                }
            }
            assert forall|x: int, y: int| 0 <= x < y < out@.len() && distinct_strings(base) implies out@[x]@ != out@[y]@ by {
                if y == prev.len() {
                    assert(out@[x] == prev[x]);
                    assert(strings_view(prev)[x] == prev[x]@);
                }
            }
        }
        k = k + 1;
    }
    assert(more@.subrange(0, more@.len() as int) =~= more@);
}

} // verus!
