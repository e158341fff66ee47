//! Case folding of addresses, and collapsing a batch to its distinct folded forms.
use vstd::prelude::*;

verus! {

/// What `str::to_lowercase` makes of a text.
pub uninterp spec fn lower_of(s: Seq<char>) -> Seq<char>;

/// Relies on `str::to_lowercase`: the folded text is a function of the characters alone.
#[verifier::external_body]
fn lowercase(s: &str) -> (r: String)
    ensures
        r@ == lower_of(s@),
{
    s.to_lowercase()
}

/// The texts held by a sequence of strings.
pub open spec fn views(v: Seq<String>) -> Seq<Seq<char>> {
    v.map_values(|x: String| x@)
}

/// The elements of `s` in order of first occurrence, each once.
pub open spec fn distinct_of(s: Seq<Seq<char>>) -> Seq<Seq<char>>
    decreases s.len(),
{
    if s.len() == 0 {
        Seq::empty()
    } else {
        let d = distinct_of(s.drop_last());
        if d.contains(s.last()) {
            d
        } else {
            d.push(s.last())
        }
    }
}

/// The lookup keys of a batch: each address folded, duplicates collapsed, first occurrence first.
pub open spec fn normalized_batch(batch: Seq<String>) -> Seq<Seq<char>> {
    distinct_of(batch.map_values(|a: String| lower_of(a@)))
}

/// `distinct_of` keeps exactly the elements of its input, with no repetition.
pub proof fn lemma_distinct_of(s: Seq<Seq<char>>)
    ensures
        distinct_of(s).no_duplicates(),
        forall|x: Seq<char>| #[trigger] distinct_of(s).contains(x) <==> s.contains(x),
    decreases s.len(),
{
    if s.len() > 0 {
        lemma_distinct_of(s.drop_last());
        let d = distinct_of(s.drop_last());
        assert forall|x: Seq<char>| s.contains(x) <==> (s.drop_last().contains(x) || x == s.last()) by {
            if s.contains(x) {
                let i = choose|i: int| 0 <= i < s.len() && s[i] == x;
                if i < s.len() - 1 {
                    assert(s.drop_last()[i] == x);
                }
            }
            if s.drop_last().contains(x) {
                let i = choose|i: int| 0 <= i < s.drop_last().len() && s.drop_last()[i] == x;
                assert(s[i] == x);
            }
            if x == s.last() {
                assert(s[s.len() - 1] == x);
            }
        }
        if !d.contains(s.last()) {
            assert forall|x: Seq<char>| d.push(s.last()).contains(x) <==> (d.contains(x) || x == s.last()) by {
                if d.push(s.last()).contains(x) {
                    let i = choose|i: int| 0 <= i < d.len() + 1 && d.push(s.last())[i] == x;
                    if i < d.len() {
                        assert(d[i] == x);
                    }
                }
                if d.contains(x) {
                    let i = choose|i: int| 0 <= i < d.len() && d[i] == x;
                    assert(d.push(s.last())[i] == x);
                }
                if x == s.last() {
                    assert(d.push(s.last())[d.len() as int] == x);
                }
            }
        }
        assert forall|x: Seq<char>| #[trigger] distinct_of(s).contains(x) <==> s.contains(x) by {
            assert(d.contains(x) <==> s.drop_last().contains(x));
        }
    }
}

/// The canonical form of an address: case folded, nothing else.
pub fn normalize(address: &String) -> (r: String)
    ensures
        r@ == lower_of(address@),
{
    lowercase(address.as_str())
}

/// Whether one of `v` holds the text of `s`.
pub fn contains_address(v: &Vec<String>, s: &String) -> (r: bool)
    ensures
        r == views(v@).contains(s@),
{
    let mut i: usize = 0;
    while i < v.len()
        invariant
            0 <= i <= v.len(),
            forall|j: int| 0 <= j < i ==> v@[j]@ != s@,
        decreases v.len() - i,
    {
        if v[i] == *s {
            assert(views(v@)[i as int] == s@);
            return true;
        }
        i = i + 1;
    }
    proof {
        if views(v@).contains(s@) {
            let j = choose|j: int| 0 <= j < views(v@).len() && views(v@)[j] == s@;
            assert(v@[j]@ == s@);
        }
    }
    false
}

/// The lookup keys of a batch: every address folded, duplicates collapsed, in order of first
/// occurrence.
pub fn normalize_batch(batch: &Vec<String>) -> (r: Vec<String>)
    ensures
        views(r@) == normalized_batch(batch@),
{
    let ghost folded = batch@.map_values(|a: String| lower_of(a@));
    let mut out: Vec<String> = Vec::new();
    let mut i: usize = 0;
    while i < batch.len()
        invariant
            0 <= i <= batch.len(),
            folded == batch@.map_values(|a: String| lower_of(a@)),
            views(out@) == distinct_of(folded.subrange(0, i as int)),
        decreases batch.len() - i,
    {
        let key = normalize(&batch[i]);
        let ghost prefix = folded.subrange(0, i as int + 1);
        assert(prefix.drop_last() == folded.subrange(0, i as int));
        assert(prefix.last() == key@);
        let ghost before = out@;
        if !contains_address(&out, &key) {
            out.push(key);
            assert(views(out@) == views(before).push(prefix.last()));
        }
        i = i + 1;
    }
    assert(folded.subrange(0, batch.len() as int) == folded);
    out
}

} // verus!
