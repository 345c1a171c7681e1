use vstd::prelude::*;

verus! {

/// Compares two task identities character by character.
pub fn same_name(a: &str, b: &str) -> (r: bool)
    ensures
        r == (a@ == b@),
{
    let n = a.unicode_len();
    if n != b.unicode_len() {
        return false;
    }
    let mut i: usize = 0;
    while i < n
        invariant
            n == a@.len(),
            n == b@.len(),
            i <= n,
            forall|j: int| 0 <= j < i ==> a@[j] == b@[j],
        decreases n - i,
    {
        if a.get_char(i) != b.get_char(i) {
            return false;
        }
        i = i + 1;
    }
    proof {
        assert(a@ =~= b@);
    }
    true
}

/// Whether `names` holds an identity equal to `name`.
pub fn contains_name(names: &Vec<&'static str>, name: &str) -> (r: bool)
    ensures
        r == names.deep_view().contains(name@),
{
    let mut i: usize = 0;
    while i < names.len()
        invariant
            i <= names.len(),
            forall|j: int| 0 <= j < i ==> names.deep_view()[j] != name@,
        decreases names.len() - i,
    {
        if same_name(names[i], name) {
            assert(names.deep_view()[i as int] == name@);
            return true;
        }
        i = i + 1;
    }
    false
}

/// A copy of a list of identities.
pub fn copy_names(names: &Vec<&'static str>) -> (r: Vec<&'static str>)
    ensures
        r@ == names@,
{
    let mut out: Vec<&'static str> = Vec::new();
    let mut i: usize = 0;
    while i < names.len()
        invariant
            i <= names@.len(),
            out@ == names@.subrange(0, i as int),
        decreases names.len() - i,
    {
        out.push(names[i]);
        i = i + 1;
        assert(out@ =~= names@.subrange(0, i as int));
    }
    assert(names@.subrange(0, i as int) =~= names@);
    out
}

/// Appending `x` adds exactly `x` to what a sequence contains.
pub proof fn lemma_push_contains(s: Seq<Seq<char>>, x: Seq<char>, y: Seq<char>)
    ensures
        s.push(x).contains(y) <==> (s.contains(y) || y == x),
{
    let t = s.push(x);
    if t.contains(y) {
        let i = choose|i: int| 0 <= i < t.len() && t[i] == y;
        if i < s.len() {
            assert(s[i] == y);
        }
    }
    if s.contains(y) {
        let i = choose|i: int| 0 <= i < s.len() && s[i] == y;
        assert(t[i] == y);
    }
    if y == x {
        assert(t[s.len() as int] == y);
    }
}

/// Where `name` stands in `names`, if it is there.
pub fn position_of(names: &Vec<&'static str>, name: &str) -> (r: Option<usize>)
    ensures
        match r {
            Some(i) => i < names@.len() && names.deep_view()[i as int] == name@,
            None => !names.deep_view().contains(name@),
        },
{
    let mut i: usize = 0;
    while i < names.len()
        invariant
            i <= names.len(),
            forall|j: int| 0 <= j < i ==> names.deep_view()[j] != name@,
        decreases names.len() - i,
    {
        if same_name(names[i], name) {
            return Some(i);
        }
        i = i + 1;
    }
    None
}

/// Whether every identity of `names` is in `within`.
pub fn all_in(names: &Vec<&'static str>, within: &Vec<&'static str>) -> (r: bool)
    ensures
        r == forall|j: int| 0 <= j < names.deep_view().len() ==> within.deep_view().contains(#[trigger] names.deep_view()[j]),
{
    let mut i: usize = 0;
    while i < names.len()
        invariant
            i <= names.len(),
            forall|j: int| 0 <= j < i ==> within.deep_view().contains(#[trigger] names.deep_view()[j]),
        decreases names.len() - i,
    {
        if !contains_name(within, names[i]) {
            assert(!within.deep_view().contains(names.deep_view()[i as int]));
            return false;
        }
        i = i + 1;
    }
    true
}

/// Appending an element not yet present keeps a sequence free of repeats.
pub proof fn lemma_push_no_duplicates(s: Seq<Seq<char>>, x: Seq<char>)
    requires
        s.no_duplicates(),
        !s.contains(x),
    ensures
        s.push(x).no_duplicates(),
{
    let t = s.push(x);
    assert forall|i: int, j: int| 0 <= i < t.len() && 0 <= j < t.len() && i != j implies t[i] != t[j] by {
        if i == s.len() {
            assert(s[j] == t[j]);
        } else if j == s.len() {
            assert(s[i] == t[i]);
        }
    }
}

/// Taking out one element of a sequence free of repeats removes exactly it.
pub proof fn lemma_remove_contains(s: Seq<Seq<char>>, p: int, y: Seq<char>)
    requires
        s.no_duplicates(),
        0 <= p < s.len(),
    ensures
        s.remove(p).no_duplicates(),
        s.remove(p).contains(y) <==> (s.contains(y) && y != s[p]),
{
    let t = s.remove(p);
    assert forall|i: int, j: int| 0 <= i < t.len() && 0 <= j < t.len() && i != j implies t[i] != t[j] by {
        let si = if i < p { i } else { i + 1 };
        let sj = if j < p { j } else { j + 1 };
        assert(t[i] == s[si]);
        assert(t[j] == s[sj]);
    }
    if t.contains(y) {
        let i = choose|i: int| 0 <= i < t.len() && t[i] == y;
        let si = if i < p { i } else { i + 1 };
        assert(s[si] == y);
    }
    if s.contains(y) && y != s[p] {
        let i = choose|i: int| 0 <= i < s.len() && s[i] == y;
        if i < p {
            assert(t[i] == y);
        } else {
            assert(t[i - 1] == y);
        }
    }
}

} // verus!
