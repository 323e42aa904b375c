//! Path strings: joining, the naming of preset documents, and the order in
//! which preset names are listed.

use vstd::prelude::*;
use vstd::string::*;
use crate::pattern::texts;

verus! {

/// `rel` joined onto `base`: an absolute `rel` replaces `base`; otherwise a
/// separator is put between them unless `base` is empty or already ends in one.
pub open spec fn joined(base: Seq<char>, rel: Seq<char>) -> Seq<char> {
    if rel.len() > 0 && rel[0] == '/' {
        rel
    } else if base.len() == 0 || base.last() == '/' {
        base + rel
    } else {
        base + seq!['/'] + rel
    }
}

/// Joins `rel` onto `base`.
pub fn join_path(base: &String, rel: &String) -> (r: String)
    ensures
        r@ == joined(base@, rel@),
{
    let rel_len = rel.as_str().unicode_len();
    if rel_len > 0 && rel.as_str().get_char(0) == '/' {
        return rel.clone();
    }
    let base_len = base.as_str().unicode_len();
    let mut r = base.clone();
    if base_len > 0 && base.as_str().get_char(base_len - 1) != '/' {
        proof {
            reveal_strlit("/");
        }
        r.append("/");
    }
    r.append(rel.as_str());
    r
}

/// The preset named by a document's file name: the file name less a
/// non-empty stem's `.toml` extension.
pub open spec fn preset_name_of(file: Seq<char>) -> Option<Seq<char>> {
    if file.len() > 5 && file.subrange(file.len() - 5, file.len() as int) == ".toml"@ {
        Some(file.subrange(0, file.len() - 5))
    } else {
        None
    }
}

/// The preset that a file of the store holds, if it is a preset document.
pub fn preset_name_from_file(file: &String) -> (r: Option<String>)
    ensures
        r matches Some(n) ==> preset_name_of(file@) == Some(n@),
        r is None ==> preset_name_of(file@) is None,
{
    let n = file.as_str().unicode_len();
    if n <= 5 {
        return None;
    }
    let tail = String::from_str(file.as_str().substring_char(n - 5, n));
    let suffix = String::from_str(".toml");
    if tail == suffix {
        Some(String::from_str(file.as_str().substring_char(0, n - 5)))
    } else {
        None
    }
}

/// Strict lexicographic order on texts, by code point.
pub open spec fn text_lt(a: Seq<char>, b: Seq<char>) -> bool
    decreases a.len(),
{
    if a.len() == 0 {
        b.len() > 0
    } else if b.len() == 0 {
        false
    } else if a[0] != b[0] {
        a[0] < b[0]
    } else {
        text_lt(a.drop_first(), b.drop_first())
    }
}

/// Every text comes strictly before the ones after it.
pub open spec fn strictly_sorted(s: Seq<Seq<char>>) -> bool {
    forall|i: int, j: int| 0 <= i < j < s.len() ==> text_lt(#[trigger] s[i], #[trigger] s[j])
}

/// No text comes before itself.
pub proof fn lemma_text_lt_irreflexive(a: Seq<char>)
    ensures
        !text_lt(a, a),
    decreases a.len(),
{
    if a.len() > 0 {
        lemma_text_lt_irreflexive(a.drop_first());
    }
}

/// Of two different texts one comes before the other.
pub proof fn lemma_text_lt_total(a: Seq<char>, b: Seq<char>)
    requires
        a != b,
    ensures
        text_lt(a, b) || text_lt(b, a),
    decreases a.len(),
{
    if a.len() > 0 && b.len() > 0 {
        if a[0] == b[0] {
            if a.drop_first() == b.drop_first() {
                assert(a =~= seq![a[0]] + a.drop_first());
                assert(b =~= seq![b[0]] + b.drop_first());
            }
            lemma_text_lt_total(a.drop_first(), b.drop_first());
        }
    } else if a.len() == 0 && b.len() == 0 {
        assert(a =~= b);
    }
}

/// The order is transitive.
pub proof fn lemma_text_lt_transitive(a: Seq<char>, b: Seq<char>, c: Seq<char>)
    requires
        text_lt(a, b),
        text_lt(b, c),
    ensures
        text_lt(a, c),
    decreases a.len(),
{
    if a.len() > 0 && b.len() > 0 && c.len() > 0 && a[0] == b[0] && b[0] == c[0] {
        lemma_text_lt_transitive(a.drop_first(), b.drop_first(), c.drop_first());
    }
}

/// Whether `a` comes strictly before `b`.
pub fn text_less(a: &String, b: &String) -> (r: bool)
    ensures
        r == text_lt(a@, b@),
{
    let la = a.as_str().unicode_len();
    let lb = b.as_str().unicode_len();
    assert(a@.subrange(0, la as int) =~= a@);
    assert(b@.subrange(0, lb as int) =~= b@);
    let mut i: usize = 0;
    while i < la && i < lb
        invariant
            la == a@.len(),
            lb == b@.len(),
            i <= la,
            i <= lb,
            text_lt(a@, b@) == text_lt(a@.subrange(i as int, la as int), b@.subrange(i as int, lb as int)),
        decreases la - i,
    {
        let ca = a.as_str().get_char(i);
        let cb = b.as_str().get_char(i);
        assert(a@.subrange(i as int, la as int)[0] == ca);
        assert(b@.subrange(i as int, lb as int)[0] == cb);
        if ca != cb {
            return ca < cb;
        }
        assert(a@.subrange(i as int, la as int).drop_first() =~= a@.subrange(i + 1, la as int));
        assert(b@.subrange(i as int, lb as int).drop_first() =~= b@.subrange(i + 1, lb as int));
        i += 1;
    }
    i == la && i < lb
}

/// Inserts `name` into a strictly sorted list of names, unless present.
pub fn insert_sorted(names: &mut Vec<String>, name: String)
    requires
        strictly_sorted(texts(old(names)@)),
    ensures
        strictly_sorted(texts(final(names)@)),
        forall|x: Seq<char>|
            texts(final(names)@).contains(x) <==> (texts(old(names)@).contains(x) || x == name@),
{
    let ghost old_names = texts(names@);
    let mut k: usize = 0;
    while k < names.len()
        invariant
            texts(names@) == old_names,
            0 <= k <= names@.len(),
            forall|j: int| 0 <= j < k ==> text_lt(#[trigger] old_names[j], name@),
        ensures
            k < names@.len() ==> !text_lt(old_names[k as int], name@),
        decreases names@.len() - k,
    {
        if !text_less(&names[k], &name) {
            break;
        }
        k += 1;
    }
    if k < names.len() && names[k] == name {
        assert(old_names[k as int] == name@);
        return;
    }
    proof {
        if k < names.len() {
            assert(!text_lt(old_names[k as int], name@));
            lemma_text_lt_total(old_names[k as int], name@);
        }
    }
    let ghost n = name@;
    names.insert(k, name);
    let ghost new_names = texts(names@);
    assert(new_names =~= old_names.insert(k as int, n));
    assert forall|i: int, j: int| 0 <= i < j < new_names.len() implies text_lt(
        #[trigger] new_names[i],
        #[trigger] new_names[j],
    ) by {
        if j < k {
        } else if j == k {
        } else if i < k {
            assert(new_names[j] == old_names[j - 1]);
        } else if i == k {
            if j - 1 > k {
                assert(text_lt(old_names[k as int], old_names[j - 1]));
                lemma_text_lt_transitive(n, old_names[k as int], old_names[j - 1]);
            }
            assert(new_names[j] == old_names[j - 1]);
        } else {
            assert(new_names[i] == old_names[i - 1]);
            assert(new_names[j] == old_names[j - 1]);
        }
    }
    assert forall|x: Seq<char>| new_names.contains(x) <==> (old_names.contains(x) || x == n) by {
        if new_names.contains(x) {
            let m = choose|m: int| 0 <= m < new_names.len() && new_names[m] == x;
            if m < k {
                assert(old_names[m] == x);
            } else if m > k {
                assert(old_names[m - 1] == x);
            }
        }
        if old_names.contains(x) {
            let m = choose|m: int| 0 <= m < old_names.len() && old_names[m] == x;
            if m < k {
                assert(new_names[m] == x);
            } else {
                assert(new_names[m + 1] == x);
            }
        }
        if x == n {
            assert(new_names[k as int] == x);
        }
    }
}

/// Removes `name` from a strictly sorted list of names; returns whether it
/// was there.
pub fn remove_sorted(names: &mut Vec<String>, name: &String) -> (found: bool)
    requires
        strictly_sorted(texts(old(names)@)),
    ensures
        found == texts(old(names)@).contains(name@),
        strictly_sorted(texts(final(names)@)),
        forall|x: Seq<char>|
            texts(final(names)@).contains(x) <==> (texts(old(names)@).contains(x) && x != name@),
{
    let ghost old_names = texts(names@);
    let mut k: usize = 0;
    while k < names.len()
        invariant
            texts(names@) == old_names,
            0 <= k <= names@.len(),
            forall|j: int| 0 <= j < k ==> old_names[j] != name@,
        ensures
            k < names@.len() ==> old_names[k as int] == name@,
        decreases names@.len() - k,
    {
        if names[k] == *name {
            break;
        }
        k += 1;
    }
    if k == names.len() {
        assert forall|x: Seq<char>| old_names.contains(x) implies x != name@ by {
            let m = choose|m: int| 0 <= m < old_names.len() && old_names[m] == x;
        }
        return false;
    }
    assert(old_names[k as int] == name@);
    names.remove(k);
    let ghost new_names = texts(names@);
    assert(new_names =~= old_names.remove(k as int));
    assert forall|i: int, j: int| 0 <= i < j < new_names.len() implies text_lt(
        #[trigger] new_names[i],
        #[trigger] new_names[j],
    ) by {
        if i < k && j < k {
        } else if i < k {
            assert(new_names[j] == old_names[j + 1]);
        } else {
            assert(new_names[i] == old_names[i + 1]);
            assert(new_names[j] == old_names[j + 1]);
        }
    }
    assert forall|x: Seq<char>| new_names.contains(x) <==> (old_names.contains(x) && x != name@) by {
        if new_names.contains(x) {
            let m = choose|m: int| 0 <= m < new_names.len() && new_names[m] == x;
            let o = if m < k { m } else { m + 1 };
            assert(old_names[o] == x);
            if o < k {
                assert(text_lt(old_names[o], old_names[k as int]));
            } else {
                assert(text_lt(old_names[k as int], old_names[o]));
            }
            lemma_text_lt_irreflexive(x);
        }
        if old_names.contains(x) && x != name@ {
            assert(x != name@);
            let m = choose|m: int| 0 <= m < old_names.len() && old_names[m] == x;
            if m < k {
                assert(new_names[m] == x);
            } else {
                assert(new_names[m - 1] == x);
            }
        }
    }
    assert(old_names.contains(name@));
    true
}

} // verus!

verus! {

/// A list of names kept strictly sorted, hence without repeats.
pub struct SortedNames {
    names: Vec<String>,
}

impl View for SortedNames {
    type V = Seq<Seq<char>>;

    closed spec fn view(&self) -> Seq<Seq<char>> {
        texts(self.names@)
    }
}

impl SortedNames {
    #[verifier::type_invariant]
    spec fn sorted(self) -> bool {
        strictly_sorted(texts(self.names@))
    }

    /// No names.
    pub fn new() -> (r: SortedNames)
        ensures
            r@ == Seq::<Seq<char>>::empty(),
    {
        let r = SortedNames { names: Vec::new() };
        assert(r@ =~= Seq::<Seq<char>>::empty());
        r
    }

    /// The names, in order.
    pub fn to_vec(&self) -> (r: Vec<String>)
        ensures
            texts(r@) == self@,
            strictly_sorted(self@),
    {
        proof {
            use_type_invariant(self);
        }
        let mut r: Vec<String> = Vec::new();
        let mut i: usize = 0;
        while i < self.names.len()
            invariant
                0 <= i <= self.names@.len(),
                texts(r@) == texts(self.names@).subrange(0, i as int),
            decreases self.names@.len() - i,
        {
            let ghost prev = r@;
            r.push(self.names[i].clone());
            assert(texts(r@) =~= texts(prev).push(self.names@[i as int]@));
            assert(texts(r@) =~= texts(self.names@).subrange(0, i + 1));
            i += 1;
        }
        assert(texts(self.names@).subrange(0, self.names@.len() as int) =~= texts(self.names@));
        r
    }

    /// Whether `name` is among the names.
    pub fn contains(&self, name: &String) -> (r: bool)
        ensures
            r == self@.contains(name@),
    {
        let mut i: usize = 0;
        while i < self.names.len()
            invariant
                0 <= i <= self.names@.len(),
                forall|j: int| 0 <= j < i ==> self.names@[j]@ != name@,
            decreases self.names@.len() - i,
        {
            if self.names[i] == *name {
                assert(texts(self.names@)[i as int] == name@);
                return true;
            }
            i += 1;
        }
        assert(!texts(self.names@).contains(name@)) by {
            if texts(self.names@).contains(name@) {
                let j = choose|j: int| 0 <= j < self.names@.len() && texts(self.names@)[j] == name@;
                assert(self.names@[j]@ == name@);
            }
        }
        false
    }

    /// Adds `name` unless present.
    pub fn add(&mut self, name: String)
        ensures
            strictly_sorted(final(self)@),
            forall|x: Seq<char>| final(self)@.contains(x) <==> (old(self)@.contains(x) || x == name@),
    {
        let mut names = self.to_vec();
        insert_sorted(&mut names, name);
        self.names = names;
    }

    /// Removes `name`; returns whether it was there.
    pub fn remove(&mut self, name: &String) -> (found: bool)
        ensures
            found == old(self)@.contains(name@),
            strictly_sorted(final(self)@),
            forall|x: Seq<char>| final(self)@.contains(x) <==> (old(self)@.contains(x) && x != name@),
    {
        let mut names = self.to_vec();
        let found = remove_sorted(&mut names, name);
        self.names = names;
        found
    }
}

} // verus!
