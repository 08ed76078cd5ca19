//! The configuration value: an optional editor preference and a list of
//! key-to-path bindings with pairwise-distinct keys.
//!
//! The mathematical model of a binding list is a sequence of pairs of
//! character sequences; `lookup` finds the path bound to a key, `bind_entries`
//! inserts or overwrites, and `unbind_entries` removes. All executable
//! operations on [`Config`] are specified against these functions.

use vstd::prelude::*;

verus! {

/// One association of a short key with a file-system path.
#[derive(Debug, Clone, PartialEq, Eq)]
pub struct Binding {
    pub key: String,
    pub path: String,
}

impl View for Binding {
    type V = (Seq<char>, Seq<char>);

    open spec fn view(&self) -> (Seq<char>, Seq<char>) {
        (self.key@, self.path@)
    }
}

/// The mathematical value of a binding list.
pub open spec fn pairs_of(bs: Seq<Binding>) -> Seq<(Seq<char>, Seq<char>)> {
    bs.map_values(|b: Binding| b@)
}

/// The whole configuration: editor preference and bindings.
#[derive(Debug, Clone, PartialEq, Eq)]
pub struct Config {
    pub editor: Option<String>,
    pub bindings: Vec<Binding>,
}

/// The mathematical value of a [`Config`].
#[verifier::ext_equal]
pub struct ConfigView {
    pub editor: Option<Seq<char>>,
    pub bindings: Seq<(Seq<char>, Seq<char>)>,
}

impl View for Config {
    type V = ConfigView;

    open spec fn view(&self) -> ConfigView {
        ConfigView {
            editor: match self.editor {
                Option::Some(ref e) => Option::Some(e@),
                Option::None => Option::None,
            },
            bindings: pairs_of(self.bindings@),
        }
    }
}

impl ConfigView {
    /// The default configuration: no editor, no bindings.
    pub open spec fn empty() -> ConfigView {
        ConfigView { editor: Option::None, bindings: Seq::empty() }
    }

    /// The configuration with the editor preference replaced.
    pub open spec fn with_editor(self, name: Seq<char>) -> ConfigView {
        ConfigView { editor: Option::Some(name), bindings: self.bindings }
    }

    /// The configuration after inserting or overwriting one binding.
    pub open spec fn with_binding(self, k: Seq<char>, p: Seq<char>) -> ConfigView {
        ConfigView { editor: self.editor, bindings: bind_entries(self.bindings, k, p) }
    }

    /// The configuration after removing the binding for `k`, if any.
    pub open spec fn without_binding(self, k: Seq<char>) -> ConfigView {
        ConfigView { editor: self.editor, bindings: unbind_entries(self.bindings, k) }
    }

    /// Well-formedness: binding keys are pairwise distinct.
    pub open spec fn wf(self) -> bool {
        unique_keys(self.bindings)
    }
}

/// Why an edit could not be performed.
#[derive(Debug, Clone, Copy, PartialEq, Eq, Structural)]
pub enum EditError {
    /// No editor is configured and no fallback was supplied.
    NoEditor,
    /// The key is not bound to any path.
    NotBound,
}

/// The index of the first entry whose key is `k`, if any.
pub open spec fn find_key(bs: Seq<(Seq<char>, Seq<char>)>, k: Seq<char>) -> Option<int>
    decreases bs.len(),
{
    if bs.len() == 0 {
        Option::None
    } else if bs[0].0 == k {
        Option::Some(0)
    } else {
        match find_key(bs.skip(1), k) {
            Option::Some(i) => Option::Some(i + 1),
            Option::None => Option::None,
        }
    }
}

/// The path bound to `k`, if any.
pub open spec fn lookup(bs: Seq<(Seq<char>, Seq<char>)>, k: Seq<char>) -> Option<Seq<char>> {
    match find_key(bs, k) {
        Option::Some(i) => Option::Some(bs[i].1),
        Option::None => Option::None,
    }
}

/// Insert a binding, overwriting in place if the key is already bound.
pub open spec fn bind_entries(
    bs: Seq<(Seq<char>, Seq<char>)>,
    k: Seq<char>,
    p: Seq<char>,
) -> Seq<(Seq<char>, Seq<char>)> {
    match find_key(bs, k) {
        Option::Some(i) => bs.update(i, (k, p)),
        Option::None => bs.push((k, p)),
    }
}

/// Remove the binding for `k`, if any.
pub open spec fn unbind_entries(
    bs: Seq<(Seq<char>, Seq<char>)>,
    k: Seq<char>,
) -> Seq<(Seq<char>, Seq<char>)> {
    match find_key(bs, k) {
        Option::Some(i) => bs.remove(i),
        Option::None => bs,
    }
}

/// Pairwise-distinct keys.
pub open spec fn unique_keys(bs: Seq<(Seq<char>, Seq<char>)>) -> bool {
    forall|i: int, j: int| 0 <= i < j < bs.len() ==> bs[i].0 != bs[j].0
}

/// `find_key` returns the index of the first entry for the key, and `None`
/// exactly when no entry has the key.
pub proof fn lemma_find_key_props(bs: Seq<(Seq<char>, Seq<char>)>, k: Seq<char>)
    ensures
        match find_key(bs, k) {
            Option::Some(i) => 0 <= i < bs.len() && bs[i].0 == k && (forall|j: int|
                0 <= j < i ==> bs[j].0 != k),
            Option::None => forall|j: int| 0 <= j < bs.len() ==> bs[j].0 != k,
        },
    decreases bs.len(),
{
    if bs.len() > 0 && bs[0].0 != k {
        lemma_find_key_props(bs.skip(1), k);
        assert forall|j: int| 1 <= j < bs.len() implies bs.skip(1)[j - 1] == bs[j] by {}
    }
}

/// If the first entry for `k` stands at `i`, then `find_key` returns `i`.
pub proof fn lemma_find_key_complete(bs: Seq<(Seq<char>, Seq<char>)>, k: Seq<char>, i: int)
    requires
        0 <= i < bs.len(),
        bs[i].0 == k,
        forall|j: int| 0 <= j < i ==> bs[j].0 != k,
    ensures
        find_key(bs, k) == Option::Some(i),
    decreases bs.len(),
{
    if i > 0 {
        assert(bs[0].0 != k);
        lemma_find_key_complete(bs.skip(1), k, i - 1);
    }
}

/// If no entry has key `k`, then `find_key` returns `None`.
pub proof fn lemma_find_key_none(bs: Seq<(Seq<char>, Seq<char>)>, k: Seq<char>)
    requires
        forall|j: int| 0 <= j < bs.len() ==> bs[j].0 != k,
    ensures
        find_key(bs, k) == Option::<int>::None,
{
    lemma_find_key_props(bs, k);
    if find_key(bs, k) is Some {
        let i = find_key(bs, k)->Some_0;
        assert(bs[i].0 == k);
        assert(false);
    }
}

/// `find_key` depends only on the keys of the entries.
pub proof fn lemma_find_key_same_keys(
    bs1: Seq<(Seq<char>, Seq<char>)>,
    bs2: Seq<(Seq<char>, Seq<char>)>,
    k: Seq<char>,
)
    requires
        bs1.len() == bs2.len(),
        forall|i: int| 0 <= i < bs1.len() ==> bs1[i].0 == bs2[i].0,
    ensures
        find_key(bs1, k) == find_key(bs2, k),
    decreases bs1.len(),
{
    if bs1.len() > 0 {
        assert(bs1[0].0 == bs2[0].0);
        lemma_find_key_same_keys(bs1.skip(1), bs2.skip(1), k);
        assert forall|i: int| 0 <= i < bs1.len() - 1 implies bs1.skip(1)[i].0 == bs2.skip(
            1,
        )[i].0 by {
            assert(bs1.skip(1)[i] == bs1[i + 1]);
            assert(bs2.skip(1)[i] == bs2[i + 1]);
        }
    }
}

/// Binding a key makes the key resolve to the new path, overwrites an earlier
/// path for the same key, and leaves every other key's resolution unchanged;
/// distinctness of keys is preserved.
pub proof fn lemma_bind_resolve(
    bs: Seq<(Seq<char>, Seq<char>)>,
    k: Seq<char>,
    p: Seq<char>,
    p2: Seq<char>,
)
    ensures
        lookup(bind_entries(bs, k, p), k) == Option::Some(p),
        lookup(bind_entries(bind_entries(bs, k, p), k, p2), k) == Option::Some(p2),
        forall|k2: Seq<char>| k2 != k ==> lookup(bind_entries(bs, k, p), k2) == lookup(bs, k2),
        unique_keys(bs) ==> unique_keys(bind_entries(bs, k, p)),
{
    lemma_bind_lookup(bs, k, p);
    lemma_bind_lookup(bind_entries(bs, k, p), k, p2);
    assert forall|k2: Seq<char>| k2 != k implies lookup(bind_entries(bs, k, p), k2) == lookup(
        bs,
        k2,
    ) by {
        lemma_bind_other(bs, k, p, k2);
    }
}

/// The core of `lemma_bind_resolve` for a single insertion.
proof fn lemma_bind_lookup(bs: Seq<(Seq<char>, Seq<char>)>, k: Seq<char>, p: Seq<char>)
    ensures
        lookup(bind_entries(bs, k, p), k) == Option::Some(p),
        unique_keys(bs) ==> unique_keys(bind_entries(bs, k, p)),
{
    lemma_find_key_props(bs, k);
    match find_key(bs, k) {
        Option::Some(i) => {
            let bs2 = bs.update(i, (k, p));
            lemma_find_key_complete(bs2, k, i);
            if unique_keys(bs) {
                assert forall|a: int, b: int| 0 <= a < b < bs2.len() implies bs2[a].0
                    != bs2[b].0 by {
                    if a != i && b != i {
                        assert(bs2[a] == bs[a] && bs2[b] == bs[b]);
                    } else if a == i {
                        assert(bs2[b] == bs[b]);
                        assert(bs[b].0 != k) by {
                            if bs[b].0 == k {
                                assert(bs[i].0 == bs[b].0);
                            }
                        }
                    } else {
                        assert(bs2[a] == bs[a]);
                        if a < i {
                            assert(bs[a].0 != k);
                        }
                    }
                }
            }
        },
        Option::None => {
            let bs2 = bs.push((k, p));
            assert(bs2[bs.len() as int].0 == k);
            assert forall|j: int| 0 <= j < bs.len() implies bs2[j].0 != k by {
                assert(bs2[j] == bs[j]);
            }
            lemma_find_key_complete(bs2, k, bs.len() as int);
            if unique_keys(bs) {
                assert forall|a: int, b: int| 0 <= a < b < bs2.len() implies bs2[a].0
                    != bs2[b].0 by {
                    if b < bs.len() {
                        assert(bs2[a] == bs[a] && bs2[b] == bs[b]);
                    } else {
                        assert(bs2[a] == bs[a] && bs2[b].0 == k);
                    }
                }
            }
        },
    }
}

/// Binding one key does not change what any other key resolves to.
proof fn lemma_bind_other(
    bs: Seq<(Seq<char>, Seq<char>)>,
    k: Seq<char>,
    p: Seq<char>,
    k2: Seq<char>,
)
    requires
        k2 != k,
    ensures
        lookup(bind_entries(bs, k, p), k2) == lookup(bs, k2),
{
    lemma_find_key_props(bs, k);
    match find_key(bs, k) {
        Option::Some(i) => {
            let bs2 = bs.update(i, (k, p));
            assert(forall|j: int| 0 <= j < bs.len() && j != i ==> bs2[j] == bs[j]);
            assert(bs2[i].0 == bs[i].0);
            lemma_find_key_same_keys(bs, bs2, k2);
            match find_key(bs, k2) {
                Option::Some(m) => {
                    lemma_find_key_props(bs, k2);
                    assert(bs[m].0 == k2);
                    assert(m != i);
                    assert(bs2[m] == bs[m]);
                },
                Option::None => {},
            }
        },
        Option::None => {
            let bs2 = bs.push((k, p));
            lemma_find_key_props(bs, k2);
            match find_key(bs, k2) {
                Option::Some(m) => {
                    assert(bs2[m] == bs[m]);
                    lemma_find_key_complete(bs2, k2, m);
                },
                Option::None => {
                    assert forall|j: int| 0 <= j < bs2.len() implies bs2[j].0 != k2 by {
                        if j < bs.len() {
                            assert(bs2[j] == bs[j]);
                        } else {
                            assert(bs2[j].0 == k);
                        }
                    }
                    lemma_find_key_none(bs2, k2);
                },
            }
        },
    }
}

/// Removing an absent key leaves the binding list unchanged.
pub proof fn lemma_unbind_absent(bs: Seq<(Seq<char>, Seq<char>)>, k: Seq<char>)
    requires
        lookup(bs, k) is None,
    ensures
        unbind_entries(bs, k) == bs,
{
}

/// Removing a bound key removes exactly that entry: the key no longer
/// resolves, every other key's resolution is unchanged, one entry is gone,
/// and distinctness of keys is preserved.
pub proof fn lemma_unbind_present(bs: Seq<(Seq<char>, Seq<char>)>, k: Seq<char>)
    requires
        unique_keys(bs),
        lookup(bs, k) is Some,
    ensures
        lookup(unbind_entries(bs, k), k) is None,
        forall|k2: Seq<char>| k2 != k ==> lookup(unbind_entries(bs, k), k2) == lookup(bs, k2),
        unbind_entries(bs, k).len() == bs.len() - 1,
        unique_keys(unbind_entries(bs, k)),
{
    lemma_find_key_props(bs, k);
    let i = find_key(bs, k)->Some_0;
    let bs2 = bs.remove(i);
    assert(forall|j: int| 0 <= j < i ==> bs2[j] == bs[j]);
    assert(forall|j: int| i <= j < bs2.len() ==> bs2[j] == bs[j + 1]);
    assert forall|j: int| 0 <= j < bs2.len() implies bs2[j].0 != k by {
        if j < i {
            assert(bs2[j] == bs[j]);
        } else {
            assert(bs2[j] == bs[j + 1]);
            assert(bs[i].0 == k);
            if bs[j + 1].0 == k {
                assert(bs[i].0 == bs[j + 1].0);
            }
        }
    }
    lemma_find_key_none(bs2, k);
    assert forall|k2: Seq<char>| k2 != k implies lookup(unbind_entries(bs, k), k2) == lookup(
        bs,
        k2,
    ) by {
        lemma_unbind_other(bs, k, i, k2);
    }
}

/// After removing entry `i` (the one for `k`), other keys resolve as before.
proof fn lemma_unbind_other(
    bs: Seq<(Seq<char>, Seq<char>)>,
    k: Seq<char>,
    i: int,
    k2: Seq<char>,
)
    requires
        unique_keys(bs),
        0 <= i < bs.len(),
        bs[i].0 == k,
        find_key(bs, k) == Option::Some(i),
        k2 != k,
    ensures
        lookup(bs.remove(i), k2) == lookup(bs, k2),
{
    let bs2 = bs.remove(i);
    assert(forall|j: int| 0 <= j < i ==> bs2[j] == bs[j]);
    assert(forall|j: int| i <= j < bs2.len() ==> bs2[j] == bs[j + 1]);
    lemma_find_key_props(bs, k2);
    match find_key(bs, k2) {
        Option::Some(m) => {
            assert(bs[m].0 == k2);
            assert(m != i);
            if m < i {
                assert(bs2[m] == bs[m]);
                lemma_find_key_complete(bs2, k2, m);
            } else {
                assert(bs2[m - 1] == bs[m]);
                assert forall|j: int| 0 <= j < m - 1 implies bs2[j].0 != k2 by {
                    if j < i {
                        assert(bs2[j] == bs[j]);
                    } else {
                        assert(bs2[j] == bs[j + 1]);
                    }
                }
                lemma_find_key_complete(bs2, k2, m - 1);
            }
        },
        Option::None => {
            assert forall|j: int| 0 <= j < bs2.len() implies bs2[j].0 != k2 by {
                if j < i {
                    assert(bs2[j] == bs[j]);
                } else {
                    assert(bs2[j] == bs[j + 1]);
                }
            }
            lemma_find_key_none(bs2, k2);
        },
    }
}

/// The index of the entry for `key` in a binding vector, if any.
fn position_of(bs: &Vec<Binding>, key: &String) -> (r: Option<usize>)
    ensures
        match r {
            Option::Some(i) => i < bs@.len() && find_key(pairs_of(bs@), key@) == Option::Some(
                i as int,
            ),
            Option::None => find_key(pairs_of(bs@), key@) is None,
        },
{
    let ghost ps = pairs_of(bs@);
    let mut i: usize = 0;
    while i < bs.len()
        invariant
            i <= bs@.len(),
            ps == pairs_of(bs@),
            forall|j: int| 0 <= j < i ==> ps[j].0 != key@,
        decreases bs@.len() - i,
    {
        if bs[i].key == *key {
            proof {
                assert(ps[i as int].0 == key@);
                lemma_find_key_complete(ps, key@, i as int);
            }
            return Option::Some(i);
        }
        proof {
            assert(ps[i as int].0 == bs@[i as int].key@);
        }
        i += 1;
    }
    proof {
        lemma_find_key_none(ps, key@);
    }
    Option::None
}

/// Insert a binding into a vector, overwriting the path in place when the
/// key is already bound.
pub(crate) fn insert_binding(bs: &mut Vec<Binding>, key: String, path: String)
    ensures
        pairs_of(final(bs)@) == bind_entries(pairs_of(old(bs)@), key@, path@),
{
    let ghost ps = pairs_of(old(bs)@);
    let ghost k = key@;
    let ghost p = path@;
    match position_of(bs, &key) {
        Option::Some(i) => {
            bs.remove(i);
            bs.insert(i, Binding { key, path });
            proof {
                assert(pairs_of(bs@) =~= ps.update(i as int, (k, p)));
            }
        },
        Option::None => {
            bs.push(Binding { key, path });
            proof {
                assert(pairs_of(bs@) =~= ps.push((k, p)));
            }
        },
    }
}

impl Config {
    /// The default configuration: no editor preference, no bindings.
    pub fn new() -> (r: Config)
        ensures
            r@ == ConfigView::empty(),
            r@.wf(),
    {
        let r = Config { editor: Option::None, bindings: Vec::new() };
        proof {
            assert(r@ =~= ConfigView::empty());
        }
        r
    }

    /// Set the preferred editor, replacing any earlier preference.
    pub fn set_editor(&mut self, name: String)
        ensures
            final(self)@ == old(self)@.with_editor(name@),
            old(self)@.wf() ==> final(self)@.wf(),
    {
        self.editor = Option::Some(name);
        proof {
            assert(self@ =~= old(self)@.with_editor(self.editor->Some_0@));
        }
    }

    /// Bind `key` to `path`, overwriting an earlier binding for the same key.
    pub fn bind(&mut self, key: String, path: String)
        ensures
            final(self)@ == old(self)@.with_binding(key@, path@),
            old(self)@.wf() ==> final(self)@.wf(),
    {
        let ghost k = key@;
        let ghost p = path@;
        insert_binding(&mut self.bindings, key, path);
        proof {
            assert(self@ =~= old(self)@.with_binding(k, p));
            if old(self)@.wf() {
                lemma_bind_resolve(old(self)@.bindings, k, p, p);
            }
        }
    }

    /// Remove the binding for `key`. Returns whether the key was bound; when
    /// it was not, the configuration is left unchanged.
    pub fn unbind(&mut self, key: &String) -> (found: bool)
        ensures
            final(self)@ == old(self)@.without_binding(key@),
            found == (lookup(old(self)@.bindings, key@) is Some),
            !found ==> final(self)@ == old(self)@,
            old(self)@.wf() ==> final(self)@.wf(),
    {
        let ghost ps = pairs_of(old(self).bindings@);
        proof {
            lemma_find_key_props(ps, key@);
        }
        match position_of(&self.bindings, key) {
            Option::Some(i) => {
                self.bindings.remove(i);
                proof {
                    assert(pairs_of(self.bindings@) =~= ps.remove(i as int));
                    assert(self@ =~= old(self)@.without_binding(key@));
                    if old(self)@.wf() {
                        lemma_unbind_present(ps, key@);
                    }
                }
                true
            },
            Option::None => {
                proof {
                    assert(self@ =~= old(self)@.without_binding(key@));
                    assert(self@ =~= old(self)@);
                }
                false
            },
        }
    }

    /// The editor that an edit would launch: the configured one when set,
    /// else the supplied fallback.
    pub fn effective_editor(&self, fallback: Option<String>) -> (r: Option<String>)
        ensures
            self@.editor is Some ==> (r matches Some(e) && Option::Some(e@) == self@.editor),
            self@.editor is None && fallback is Some ==> r == fallback,
            self@.editor is None && fallback is None ==> r is None,
    {
        match &self.editor {
            Option::Some(e) => Option::Some(e.clone()),
            Option::None => fallback,
        }
    }

    /// The command an edit of `key` performs: the effective editor and the
    /// bound path. Reports the missing editor first, as the edit flow does,
    /// and a missing binding otherwise.
    pub fn edit_command(&self, key: &String, fallback: Option<String>) -> (r: Result<
        (String, String),
        EditError,
    >)
        ensures
            match r {
                Result::Ok(cmd) => {
                    &&& (self@.editor is Some ==> Option::Some(cmd.0@) == self@.editor)
                    &&& (self@.editor is None ==> (fallback matches Some(f) && cmd.0@ == f@))
                    &&& lookup(self@.bindings, key@) == Option::Some(cmd.1@)
                },
                Result::Err(e) => {
                    &&& (e == EditError::NoEditor <==> self@.editor is None && fallback is None)
                    &&& (e == EditError::NotBound ==> lookup(self@.bindings, key@) is None)
                },
            },
            r is Ok <==> ((self@.editor is Some || fallback is Some) && lookup(
                self@.bindings,
                key@,
            ) is Some),
    {
        let editor = match self.effective_editor(fallback) {
            Option::Some(e) => e,
            Option::None => {
                return Result::Err(EditError::NoEditor);
            },
        };
        match self.resolve(key) {
            Option::Some(path) => Result::Ok((editor, path)),
            Option::None => Result::Err(EditError::NotBound),
        }
    }

    /// The path bound to `key`, if any.
    pub fn resolve(&self, key: &String) -> (r: Option<String>)
        ensures
            match r {
                Option::Some(p) => lookup(self@.bindings, key@) == Option::Some(p@),
                Option::None => lookup(self@.bindings, key@) is None,
            },
    {
        match position_of(&self.bindings, key) {
            Option::Some(i) => Option::Some(self.bindings[i].path.clone()),
            Option::None => Option::None,
        }
    }
}

} // verus!
