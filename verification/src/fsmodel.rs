use vstd::prelude::*;

use crate::text::str_eq;

verus! {

// ---------------------------------------------------------------------------
// The filesystem model
//
// The lifecycle engine works over this explicit model of the host
// filesystem: a finite table from paths to nodes.  Every decision the
// engine takes — what to link, what not to overwrite, what to remove — is
// verified against this model.
// ---------------------------------------------------------------------------
/// The mathematical value of a filesystem node.
pub ghost enum FsNodeV {
    /// A regular file and its contents.
    File(Seq<u8>),
    /// A directory.
    Dir,
    /// A symbolic link and its target path.
    Link(Seq<char>),
}

/// A filesystem node: a regular file with its contents, a directory, or a
/// symbolic link with its target path.
pub enum FsNode {
    File(Vec<u8>),
    Dir,
    Link(String),
}

impl View for FsNode {
    type V = FsNodeV;

    open spec fn view(&self) -> FsNodeV {
        match self {
            FsNode::File(b) => FsNodeV::File(b@),
            FsNode::Dir => FsNodeV::Dir,
            FsNode::Link(t) => FsNodeV::Link(t@),
        }
    }
}

/// One table entry: a path and the node at that path.
pub struct FsEntry {
    pub path: String,
    pub node: FsNode,
}

/// The filesystem model: a table from paths to nodes, each path at most
/// once.
pub struct FsState {
    pub entries: Vec<FsEntry>,
}

/// First-match lookup in an entry table.
pub open spec fn find_at(s: Seq<(Seq<char>, FsNodeV)>, p: Seq<char>) -> Option<FsNodeV>
    decreases s.len(),
{
    if s.len() == 0 {
        None
    } else if s[0].0 == p {
        Some(s[0].1)
    } else {
        find_at(s.skip(1), p)
    }
}

/// Lookup distributes over concatenation: the left table wins.
pub proof fn lemma_find_at_append(a: Seq<(Seq<char>, FsNodeV)>, b: Seq<(Seq<char>, FsNodeV)>, p: Seq<char>)
    ensures
        find_at(a + b, p) == (match find_at(a, p) {
            Some(n) => Some(n),
            None => find_at(b, p),
        }),
    decreases a.len(),
{
    if a.len() == 0 {
        assert(a + b =~= b);
    } else {
        assert((a + b).skip(1) =~= a.skip(1) + b);
        lemma_find_at_append(a.skip(1), b, p);
        assert((a + b)[0] == a[0]);
    }
}

impl FsState {
    /// The entry table as a mathematical sequence of pairs.
    pub open spec fn entries_view(self) -> Seq<(Seq<char>, FsNodeV)> {
        Seq::new(self.entries@.len(), |k: int| (self.entries@[k].path@, self.entries@[k].node@))
    }

    /// The node at a path, if any.
    pub open spec fn find(self, p: Seq<char>) -> Option<FsNodeV> {
        find_at(self.entries_view(), p)
    }

    /// Each path occurs at most once in the table.
    pub open spec fn wf(self) -> bool {
        forall|j: int, k: int|
            0 <= j < k < self.entries_view().len() ==> (#[trigger] self.entries_view()[j].0) != (
            #[trigger] self.entries_view()[k].0)
    }

    /// The bytes of the regular file at a path; a symbolic link is followed
    /// one step to the regular file it names.
    pub open spec fn file_bytes(self, p: Seq<char>) -> Option<Seq<u8>> {
        match self.find(p) {
            Some(FsNodeV::File(b)) => Some(b),
            Some(FsNodeV::Link(t)) => match self.find(t) {
                Some(FsNodeV::File(b)) => Some(b),
                _ => None,
            },
            _ => None,
        }
    }

    /// A path names a regular file, following one symbolic link step.
    pub open spec fn is_file(self, p: Seq<char>) -> bool {
        self.file_bytes(p) is Some
    }

    /// An empty filesystem model.
    pub fn new() -> (r: FsState)
        ensures
            r.wf(),
            forall|p: Seq<char>| r.find(p) is None,
    {
        let r = FsState { entries: Vec::new() };
        proof {
            assert(r.entries_view() =~= Seq::<(Seq<char>, FsNodeV)>::empty());
        }
        r
    }

    /// Looks up the node at a path.
    pub fn find_node(&self, p: &str) -> (r: Option<&FsNode>)
        ensures
            (match r {
                Some(n) => self.find(p@) == Some(n@),
                None => self.find(p@) is None,
            }),
    {
        proof {
            assert(self.entries_view().skip(0) =~= self.entries_view());
        }
        let mut k: usize = 0;
        while k < self.entries.len()
            invariant
                k <= self.entries@.len(),
                find_at(self.entries_view().skip(k as int), p@) == self.find(p@),
                forall|j: int| 0 <= j < k ==> (#[trigger] self.entries_view()[j].0) != p@,
            decreases self.entries@.len() - k,
        {
            proof {
                assert(self.entries_view().skip(k as int)[0] == self.entries_view()[k as int]);
                assert(self.entries_view().skip(k as int).skip(1) =~= self.entries_view().skip(
                    k as int + 1,
                ));
            }
            if str_eq(self.entries[k].path.as_str(), p) {
                return Some(&self.entries[k].node);
            }
            k = k + 1;
        }
        proof {
            assert(self.entries_view().skip(k as int) =~= Seq::<(Seq<char>, FsNodeV)>::empty());
        }
        None
    }

    /// True when some node exists at the path.
    pub fn contains(&self, p: &str) -> (r: bool)
        ensures
            r == (self.find(p@) is Some),
    {
        match self.find_node(p) {
            Some(_) => true,
            None => false,
        }
    }

    /// Returns the bytes of the regular file at a path, following one
    /// symbolic link step; `None` when the path is absent or not a file.
    pub fn read_file(&self, p: &str) -> (r: Option<&Vec<u8>>)
        ensures
            (match r {
                Some(b) => self.file_bytes(p@) == Some(b@),
                None => self.file_bytes(p@) is None,
            }),
    {
        match self.find_node(p) {
            Some(FsNode::File(b)) => Some(b),
            Some(FsNode::Link(t)) => {
                let target = t.clone();
                match self.find_node(target.as_str()) {
                    Some(FsNode::File(b)) => Some(b),
                    _ => None,
                }
            },
            _ => None,
        }
    }

    /// Places a node at a path, replacing what was there.
    pub fn set(&mut self, p: &str, n: FsNode)
        requires
            old(self).wf(),
        ensures
            final(self).wf(),
            forall|q: Seq<char>|
                final(self).find(q) == (if q == p@ {
                    Some(n@)
                } else {
                    old(self).find(q)
                }),
    {
        let ghost s_old = self.entries_view();
        let mut k: usize = 0;
        while k < self.entries.len()
            invariant
                old(self).wf(),
                self == old(self),
                s_old == old(self).entries_view(),
                k <= self.entries@.len(),
                forall|j: int| 0 <= j < k ==> (#[trigger] self.entries_view()[j].0) != p@,
            decreases self.entries@.len() - k,
        {
            if str_eq(self.entries[k].path.as_str(), p) {
                let owned = p.to_owned();
                self.entries.set(k, FsEntry { path: owned, node: n });
                proof {
                    assert forall|q: Seq<char>| true implies self.find(q) == (if q == p@ {
                        Some(n@)
                    } else {
                        old(self).find(q)
                    }) by {
                        lemma_find_update(
                            old(self).entries_view(),
                            self.entries_view(),
                            k as int,
                            p@,
                            q,
                        );
                    }
                    assert forall|j: int, t: int|
                        0 <= j < t < self.entries_view().len() implies (
                    #[trigger] self.entries_view()[j].0) != (#[trigger] self.entries_view()[t].0)
                        by {
                        assert(old(self).entries_view()[j].0 == self.entries_view()[j].0 || j
                            == k);
                        assert(old(self).entries_view()[t].0 == self.entries_view()[t].0 || t
                            == k);
                    }
                }
                return ;
            }
            k = k + 1;
        }
        let owned = p.to_owned();
        self.entries.push(FsEntry { path: owned, node: n });
        proof {
            assert(self.entries_view() =~= s_old.push((p@, n@)));
            assert forall|q: Seq<char>| true implies self.find(q) == (if q == p@ {
                Some(n@)
            } else {
                old(self).find(q)
            }) by {
                assert(s_old.push((p@, n@)) =~= s_old + seq![(p@, n@)]);
                lemma_find_at_append(s_old, seq![(p@, n@)], q);
                if q == p@ {
                    lemma_no_key_find_none(s_old, p@);
                }
                assert(seq![(p@, n@)].skip(1) =~= Seq::<(Seq<char>, FsNodeV)>::empty());
                assert(find_at(Seq::<(Seq<char>, FsNodeV)>::empty(), q) is None);
            }
            assert forall|j: int, t: int|
                0 <= j < t < self.entries_view().len() implies (
            #[trigger] self.entries_view()[j].0) != (#[trigger] self.entries_view()[t].0) by {
                if t < s_old.len() {
                    assert(old(self).entries_view()[j].0 != old(self).entries_view()[t].0);
                } else {
                    assert(self.entries_view()[t].0 == p@);
                    assert(self.entries_view()[j].0 == s_old[j].0);
                }
            }
        }
    }

    /// Removes the node at a path, if any.
    pub fn del(&mut self, p: &str)
        requires
            old(self).wf(),
        ensures
            final(self).wf(),
            forall|q: Seq<char>|
                final(self).find(q) == (if q == p@ {
                    None::<FsNodeV>
                } else {
                    old(self).find(q)
                }),
    {
        let ghost s_old = self.entries_view();
        let mut k: usize = 0;
        while k < self.entries.len()
            invariant
                old(self).wf(),
                self == old(self),
                s_old == old(self).entries_view(),
                k <= self.entries@.len(),
                forall|j: int| 0 <= j < k ==> (#[trigger] self.entries_view()[j].0) != p@,
            decreases self.entries@.len() - k,
        {
            if str_eq(self.entries[k].path.as_str(), p) {
                self.entries.remove(k);
                proof {
                    let a = s_old.take(k as int);
                    let b = s_old.skip(k as int + 1);
                    assert(self.entries_view() =~= a + b);
                    assert forall|q: Seq<char>| true implies self.find(q) == (if q == p@ {
                        None::<FsNodeV>
                    } else {
                        old(self).find(q)
                    }) by {
                        lemma_find_at_append(a, b, q);
                        assert(s_old =~= a + (seq![s_old[k as int]] + b));
                        lemma_find_at_append(a, seq![s_old[k as int]] + b, q);
                        assert((seq![s_old[k as int]] + b)[0] == s_old[k as int]);
                        assert((seq![s_old[k as int]] + b).skip(1) =~= b);
                        if q == p@ {
                            lemma_no_key_find_none(a, p@);
                            // uniqueness: b holds no p either
                            assert forall|j: int| 0 <= j < b.len() implies (#[trigger] b[j]).0
                                != p@ by {
                                assert(b[j] == s_old[k as int + 1 + j]);
                                assert(s_old[k as int].0 != s_old[k as int + 1 + j].0);
                            }
                            lemma_no_key_find_none(b, p@);
                        }
                    }
                    assert forall|j: int, t: int|
                        0 <= j < t < self.entries_view().len() implies (
                    #[trigger] self.entries_view()[j].0) != (#[trigger] self.entries_view()[t].0)
                        by {
                        let jo = if j < k as int {
                            j
                        } else {
                            j + 1
                        };
                        let to = if t < k as int {
                            t
                        } else {
                            t + 1
                        };
                        assert(self.entries_view()[j] == s_old[jo]);
                        assert(self.entries_view()[t] == s_old[to]);
                    }
                }
                return ;
            }
            k = k + 1;
        }
        proof {
            assert forall|q: Seq<char>| true implies self.find(q) == (if q == p@ {
                None::<FsNodeV>
            } else {
                old(self).find(q)
            }) by {
                if q == p@ {
                    lemma_no_key_find_none(s_old, p@);
                }
            }
        }
    }
}

/// One path is a prefix of another.
pub open spec fn path_prefixed(q: Seq<char>, prefix: Seq<char>) -> bool {
    prefix.is_prefix_of(q)
}

/// The entries whose paths do not start with a prefix, in order.
pub open spec fn keep_unprefixed(s: Seq<(Seq<char>, FsNodeV)>, prefix: Seq<char>) -> Seq<
    (Seq<char>, FsNodeV),
>
    decreases s.len(),
{
    if s.len() == 0 {
        s
    } else if path_prefixed(s[0].0, prefix) {
        keep_unprefixed(s.skip(1), prefix)
    } else {
        seq![s[0]] + keep_unprefixed(s.skip(1), prefix)
    }
}

/// Lookup in the filtered table: a prefixed key is gone, any other key is
/// looked up as before.
proof fn lemma_keep_unprefixed_find(s: Seq<(Seq<char>, FsNodeV)>, prefix: Seq<char>, q: Seq<char>)
    ensures
        path_prefixed(q, prefix) ==> find_at(keep_unprefixed(s, prefix), q) is None,
        !path_prefixed(q, prefix) ==> find_at(keep_unprefixed(s, prefix), q) == find_at(s, q),
    decreases s.len(),
{
    if s.len() == 0 {
    } else {
        lemma_keep_unprefixed_find(s.skip(1), prefix, q);
        if !path_prefixed(s[0].0, prefix) {
            let t = seq![s[0]] + keep_unprefixed(s.skip(1), prefix);
            assert(t[0] == s[0]);
            assert(t.skip(1) =~= keep_unprefixed(s.skip(1), prefix));
        }
    }
}

/// A key found in the filtered table was in the original one.
proof fn lemma_keep_unprefixed_keys(s: Seq<(Seq<char>, FsNodeV)>, prefix: Seq<char>, q: Seq<char>)
    ensures
        find_at(keep_unprefixed(s, prefix), q) is Some ==> find_at(s, q) is Some,
    decreases s.len(),
{
    if s.len() == 0 {
    } else {
        lemma_keep_unprefixed_keys(s.skip(1), prefix, q);
        if !path_prefixed(s[0].0, prefix) {
            let t = seq![s[0]] + keep_unprefixed(s.skip(1), prefix);
            assert(t[0] == s[0]);
            assert(t.skip(1) =~= keep_unprefixed(s.skip(1), prefix));
        }
    }
}

impl FsState {
    /// Removes every node whose path starts with the given prefix, as
    /// removing a whole directory tree does.
    pub fn del_prefix(&mut self, prefix: &str)
        requires
            old(self).wf(),
        ensures
            final(self).wf(),
            forall|q: Seq<char>|
                final(self).find(q) == (if path_prefixed(q, prefix@) {
                    None::<FsNodeV>
                } else {
                    old(self).find(q)
                }),
    {
        let mut out: Vec<FsEntry> = Vec::new();
        let mut k: usize = 0;
        let ghost s_old = self.entries_view();
        proof {
            assert(s_old.take(0) =~= Seq::<(Seq<char>, FsNodeV)>::empty());
        }
        while k < self.entries.len()
            invariant
                self == old(self),
                old(self).wf(),
                s_old == old(self).entries_view(),
                k <= self.entries@.len(),
                Seq::new(out@.len(), |j: int| (out@[j].path@, out@[j].node@)) =~= keep_unprefixed(
                    s_old.take(k as int),
                    prefix@,
                ),
            decreases self.entries@.len() - k,
        {
            let keep = !crate::text::has_prefix_at(self.entries[k].path.as_str(), 0, prefix);
            let ghost before = Seq::new(out@.len(), |j: int| (out@[j].path@, out@[j].node@));
            if !keep {
                // the node at this path is dropped
            } else {
                let node_copy = clone_node(&self.entries[k].node);
                let path_copy = self.entries[k].path.clone();
                out.push(FsEntry { path: path_copy, node: node_copy });
            }
            proof {
                let tk = s_old.take(k as int);
                let tk1 = s_old.take(k as int + 1);
                lemma_keep_unprefixed_append_one(tk, s_old[k as int], prefix@);
                assert(tk.push(s_old[k as int]) =~= tk1);
                if keep {
                    assert(!path_prefixed(s_old[k as int].0, prefix@)) by {
                        assert(self.entries_view()[k as int] == s_old[k as int]);
                    }
                    assert(Seq::new(out@.len(), |j: int| (out@[j].path@, out@[j].node@)) =~= before
                        + seq![s_old[k as int]]);
                } else {
                    assert(path_prefixed(s_old[k as int].0, prefix@)) by {
                        assert(self.entries_view()[k as int] == s_old[k as int]);
                    }
                    assert(before + Seq::<(Seq<char>, FsNodeV)>::empty() =~= before);
                }
            }
            k = k + 1;
        }
        proof {
            assert(s_old.take(s_old.len() as int) =~= s_old);
        }
        self.entries = out;
        proof {
            assert(self.entries_view() =~= keep_unprefixed(s_old, prefix@));
            assert forall|q: Seq<char>| true implies self.find(q) == (if path_prefixed(
                q,
                prefix@,
            ) {
                None::<FsNodeV>
            } else {
                old(self).find(q)
            }) by {
                lemma_keep_unprefixed_find(s_old, prefix@, q);
            }
            assert forall|j: int, t: int|
                0 <= j < t < self.entries_view().len() implies (
            #[trigger] self.entries_view()[j].0) != (#[trigger] self.entries_view()[t].0) by {
                lemma_wf_seq_keep(s_old, prefix@);
            }
        }
    }

    /// Copies the subtree under `src` to the same relative locations under
    /// `dst`, overwriting what is there; everything else is untouched.
    pub fn copy_tree(&mut self, src: &str, dst: &str)
        requires
            old(self).wf(),
        ensures
            final(self).wf(),
            forall|q: Seq<char>|
                final(self).find(q) == spec_copy_find(*old(self), src@, dst@, q),
    {
        // first pass: collect the relative paths and nodes under `src`
        let mut collected: Vec<FsEntry> = Vec::new();
        let srclen = src.unicode_len();
        let mut k: usize = 0;
        while k < self.entries.len()
            invariant
                old(self).wf(),
                self == old(self),
                srclen == src@.len(),
                k <= self.entries@.len(),
                forall|j: int|
                    0 <= j < collected@.len() ==> old(self).find(
                        src@ + (#[trigger] collected@[j].path@),
                    ) == Some(collected@[j].node@),
                forall|rest: Seq<char>|
                    #![trigger src@ + rest]
                    (exists|t: int|
                        0 <= t < k && (#[trigger] old(self).entries_view()[t]).0 == src@
                            + rest) ==> exists|j: int|
                        0 <= j < collected@.len() && (#[trigger] collected@[j].path@) == rest,
            decreases self.entries@.len() - k,
        {
            let plen = self.entries[k].path.unicode_len();
            if has_prefix_at_start(self.entries[k].path.as_str(), src) {
                let rest = crate::text::copy_range(self.entries[k].path.as_str(), srclen, plen);
                let node_copy = clone_node(&self.entries[k].node);
                let ghost before = collected@;
                collected.push(FsEntry { path: rest, node: node_copy });
                proof {
                    let p = self.entries_view()[k as int].0;
                    assert(src@ + p.skip(src@.len() as int) =~= p);
                    lemma_wf_find_present(*self, k as int);
                    assert forall|rst: Seq<char>|
                        #![trigger src@ + rst]
                        (exists|t: int|
                            0 <= t < k + 1 && (#[trigger] old(self).entries_view()[t]).0 == src@
                                + rst) implies exists|j: int|
                            0 <= j < collected@.len() && (#[trigger] collected@[j].path@)
                                == rst by {
                        let t = choose|t: int|
                            0 <= t < k + 1 && (#[trigger] old(self).entries_view()[t]).0 == src@
                                + rst;
                        if t < k {
                            let j = choose|j: int|
                                0 <= j < before.len() && (#[trigger] before[j].path@) == rst;
                            assert(collected@[j].path@ == rst);
                        } else {
                            assert(src@ + rst == src@ + p.skip(src@.len() as int));
                            assert((src@ + rst).skip(src@.len() as int) =~= rst);
                            assert(collected@[collected@.len() - 1].path@ == rst);
                        }
                    }
                }
            } else {
                proof {
                    assert forall|rst: Seq<char>|
                        #![trigger src@ + rst]
                        (exists|t: int|
                            0 <= t < k + 1 && (#[trigger] old(self).entries_view()[t]).0 == src@
                                + rst) implies exists|j: int|
                            0 <= j < collected@.len() && (#[trigger] collected@[j].path@)
                                == rst by {
                        let t = choose|t: int|
                            0 <= t < k + 1 && (#[trigger] old(self).entries_view()[t]).0 == src@
                                + rst;
                        if t == k as int {
                            assert(src@.is_prefix_of(src@ + rst)) by {
                                assert((src@ + rst).subrange(0, src@.len() as int) =~= src@);
                            }
                            assert(false);
                        }
                        assert(t < k);
                    }
                }
            }
            k = k + 1;
        }
        // second pass: place each collected node under `dst`
        let ghost fs0 = *self;
        let ghost cs = collected@;
        proof {
            assert forall|rest: Seq<char>| #![trigger src@ + rest]
                fs0.find(src@ + rest) is Some implies exists|t: int|
                0 <= t < cs.len() && (#[trigger] cs[t].path@) == rest by {
                lemma_find_key_exists(fs0.entries_view(), src@ + rest);
            }
        }
        let mut j: usize = 0;
        while j < collected.len()
            invariant
                fs0.wf(),
                fs0 == *old(self),
                cs == collected@,
                j <= cs.len(),
                self.wf(),
                srclen == src@.len(),
                forall|t: int|
                    0 <= t < cs.len() ==> fs0.find(src@ + (#[trigger] cs[t].path@)) == Some(
                        cs[t].node@,
                    ),
                forall|rest: Seq<char>|
                    fs0.find(src@ + rest) is Some ==> exists|t: int|
                        0 <= t < cs.len() && (#[trigger] cs[t].path@) == rest,
                forall|q: Seq<char>|
                    #![auto]
                    self.find(q) == (if (exists|t: int|
                        0 <= t < j && q == dst@ + (#[trigger] cs[t].path@)) {
                        Some(fs0.find(src@ + q.skip(dst@.len() as int))->0)
                    } else {
                        fs0.find(q)
                    }),
        decreases cs.len() - j,
        {
            let target = crate::text::concat_str(dst, collected[j].path.as_str());
            let node_copy = clone_node(&collected[j].node);
            self.set(target.as_str(), node_copy);
            proof {
                assert forall|q: Seq<char>| #![auto] true implies self.find(q) == (if (exists|
                    t: int,
                |
                    0 <= t < j + 1 && q == dst@ + (#[trigger] cs[t].path@)) {
                    Some(fs0.find(src@ + q.skip(dst@.len() as int))->0)
                } else {
                    fs0.find(q)
                }) by {
                    if q == dst@ + cs[j as int].path@ {
                        assert((dst@ + cs[j as int].path@).skip(dst@.len() as int) =~= cs[
                            j as int].path@);
                        assert(fs0.find(src@ + q.skip(dst@.len() as int)) == Some(
                            cs[j as int].node@,
                        ));
                    } else {
                        if exists|t: int| 0 <= t < j + 1 && q == dst@ + (#[trigger] cs[t].path@) {
                            let t = choose|t: int|
                                0 <= t < j + 1 && q == dst@ + (#[trigger] cs[t].path@);
                            assert(t < j);
                        }
                    }
                }
            }
            j = j + 1;
        }
        proof {
            assert forall|q: Seq<char>| true implies self.find(q) == spec_copy_find(
                fs0,
                src@,
                dst@,
                q,
            ) by {
                if dst@.is_prefix_of(q) {
                    let rest = q.skip(dst@.len() as int);
                    assert(dst@ + rest =~= q);
                    if fs0.find(src@ + rest) is Some {
                        assert(exists|t: int|
                            0 <= t < cs.len() && (#[trigger] cs[t].path@) == rest);
                        let t = choose|t: int|
                            0 <= t < cs.len() && (#[trigger] cs[t].path@) == rest;
                        assert(q == dst@ + cs[t].path@);
                    } else {
                        if exists|t: int| 0 <= t < cs.len() && q == dst@ + (#[trigger] cs[t].path@) {
                            let t = choose|t: int|
                                0 <= t < cs.len() && q == dst@ + (#[trigger] cs[t].path@);
                            assert((dst@ + cs[t].path@).skip(dst@.len() as int) =~= cs[t].path@);
                            assert(fs0.find(src@ + rest) == Some(cs[t].node@));
                            assert(false);
                        }
                    }
                } else {
                    if exists|t: int| 0 <= t < cs.len() && q == dst@ + (#[trigger] cs[t].path@) {
                        let t = choose|t: int|
                            0 <= t < cs.len() && q == dst@ + (#[trigger] cs[t].path@);
                        assert(dst@.is_prefix_of(dst@ + cs[t].path@)) by {
                            assert((dst@ + cs[t].path@).subrange(0, dst@.len() as int) =~= dst@);
                        }
                        assert(false);
                    }
                }
            }
        }
    }
}

/// What lookup returns after a subtree copy: a path under `dst` shows what
/// the same relative path under `src` held when that existed, and every
/// other path is unchanged.
pub open spec fn spec_copy_find(fs0: FsState, src: Seq<char>, dst: Seq<char>, q: Seq<char>) -> Option<
    FsNodeV,
> {
    if dst.is_prefix_of(q) && fs0.find(src + q.skip(dst.len() as int)) is Some {
        fs0.find(src + q.skip(dst.len() as int))
    } else {
        fs0.find(q)
    }
}

/// A found key is carried by some entry.
proof fn lemma_find_key_exists(s: Seq<(Seq<char>, FsNodeV)>, p: Seq<char>)
    ensures
        find_at(s, p) is Some ==> exists|t: int| 0 <= t < s.len() && (#[trigger] s[t]).0 == p,
    decreases s.len(),
{
    if s.len() == 0 {
    } else if s[0].0 == p {
        assert(s[0].0 == p);
    } else {
        lemma_find_key_exists(s.skip(1), p);
        if find_at(s.skip(1), p) is Some {
            let t = choose|t: int| 0 <= t < s.skip(1).len() && (#[trigger] s.skip(1)[t]).0 == p;
            assert(s[t + 1].0 == p);
        }
    }
}

/// An entry present in a well-formed table is what lookup returns.
pub proof fn lemma_wf_find_present(fs: FsState, k: int)
    requires
        fs.wf(),
        0 <= k < fs.entries_view().len(),
    ensures
        fs.find(fs.entries_view()[k].0) == Some(fs.entries_view()[k].1),
{
    lemma_find_present_at(fs.entries_view(), k);
}

/// An entry whose key occurs nowhere earlier is what lookup returns.
proof fn lemma_find_present_at(s: Seq<(Seq<char>, FsNodeV)>, k: int)
    requires
        0 <= k < s.len(),
        forall|j: int, t: int| 0 <= j < t < s.len() ==> (#[trigger] s[j]).0 != (#[trigger] s[t]).0,
    ensures
        find_at(s, s[k].0) == Some(s[k].1),
    decreases k,
{
    if k == 0 {
    } else {
        assert(s[0].0 != s[k].0);
        assert forall|j: int, t: int|
            0 <= j < t < s.skip(1).len() implies (#[trigger] s.skip(1)[j]).0 != (#[trigger] s.skip(
            1,
        )[t]).0 by {
            assert(s.skip(1)[j] == s[j + 1]);
            assert(s.skip(1)[t] == s[t + 1]);
        }
        lemma_find_present_at(s.skip(1), k - 1);
        assert(s.skip(1)[k - 1] == s[k]);
    }
}

/// Filtering one more entry onto the kept table.
proof fn lemma_keep_unprefixed_append_one(
    s: Seq<(Seq<char>, FsNodeV)>,
    e: (Seq<char>, FsNodeV),
    prefix: Seq<char>,
)
    ensures
        keep_unprefixed(s.push(e), prefix) == (if path_prefixed(e.0, prefix) {
            keep_unprefixed(s, prefix)
        } else {
            keep_unprefixed(s, prefix) + seq![e]
        }),
    decreases s.len(),
{
    if s.len() == 0 {
        assert(s.push(e)[0] == e);
        assert(s.push(e).skip(1) =~= s);
        if !path_prefixed(e.0, prefix) {
            assert(keep_unprefixed(s, prefix) + seq![e] =~= seq![e] + keep_unprefixed(s, prefix));
        }
    } else {
        assert(s.push(e)[0] == s[0]);
        assert(s.push(e).skip(1) =~= s.skip(1).push(e));
        lemma_keep_unprefixed_append_one(s.skip(1), e, prefix);
        if !path_prefixed(s[0].0, prefix) && !path_prefixed(e.0, prefix) {
            assert(seq![s[0]] + (keep_unprefixed(s.skip(1), prefix) + seq![e]) =~= (seq![s[0]]
                + keep_unprefixed(s.skip(1), prefix)) + seq![e]);
        }
    }
}

/// Filtering keeps keys pairwise distinct.
proof fn lemma_wf_seq_keep(s: Seq<(Seq<char>, FsNodeV)>, prefix: Seq<char>)
    requires
        forall|j: int, t: int| 0 <= j < t < s.len() ==> (#[trigger] s[j]).0 != (#[trigger] s[t]).0,
    ensures
        forall|j: int, t: int|
            0 <= j < t < keep_unprefixed(s, prefix).len() ==> (#[trigger] keep_unprefixed(
                s,
                prefix,
            )[j]).0 != (#[trigger] keep_unprefixed(s, prefix)[t]).0,
    decreases s.len(),
{
    if s.len() == 0 {
    } else {
        assert forall|j: int, t: int|
            0 <= j < t < s.skip(1).len() implies (#[trigger] s.skip(1)[j]).0 != (#[trigger] s.skip(
            1,
        )[t]).0 by {
            assert(s.skip(1)[j] == s[j + 1]);
            assert(s.skip(1)[t] == s[t + 1]);
        }
        lemma_wf_seq_keep(s.skip(1), prefix);
        if !path_prefixed(s[0].0, prefix) {
            let kept = seq![s[0]] + keep_unprefixed(s.skip(1), prefix);
            assert forall|j: int, t: int|
                0 <= j < t < kept.len() implies (#[trigger] kept[j]).0 != (#[trigger] kept[t]).0 by {
                if j == 0 {
                    assert(kept[t] == keep_unprefixed(s.skip(1), prefix)[t - 1]);
                    lemma_keep_keys_contained(s.skip(1), prefix, t - 1);
                } else {
                    assert(kept[j] == keep_unprefixed(s.skip(1), prefix)[j - 1]);
                    assert(kept[t] == keep_unprefixed(s.skip(1), prefix)[t - 1]);
                }
            }
        }
    }
}

/// Every kept entry occurs in the original table.
proof fn lemma_keep_keys_contained(s: Seq<(Seq<char>, FsNodeV)>, prefix: Seq<char>, j: int)
    requires
        0 <= j < keep_unprefixed(s, prefix).len(),
    ensures
        exists|t: int| 0 <= t < s.len() && s[t] == keep_unprefixed(s, prefix)[j],
    decreases s.len(),
{
    if s.len() == 0 {
    } else if path_prefixed(s[0].0, prefix) {
        lemma_keep_keys_contained(s.skip(1), prefix, j);
        let t = choose|t: int|
            0 <= t < s.skip(1).len() && s.skip(1)[t] == keep_unprefixed(s.skip(1), prefix)[j];
        assert(s[t + 1] == keep_unprefixed(s, prefix)[j]);
    } else {
        let kept = seq![s[0]] + keep_unprefixed(s.skip(1), prefix);
        if j == 0 {
            assert(s[0] == kept[0]);
        } else {
            lemma_keep_keys_contained(s.skip(1), prefix, j - 1);
            let t = choose|t: int|
                0 <= t < s.skip(1).len() && s.skip(1)[t] == keep_unprefixed(s.skip(1), prefix)[j
                    - 1];
            assert(kept[j] == keep_unprefixed(s.skip(1), prefix)[j - 1]);
            assert(s[t + 1] == kept[j]);
        }
    }
}

/// Copies a filesystem node.
pub fn clone_node(n: &FsNode) -> (r: FsNode)
    ensures
        r@ == n@,
{
    match n {
        FsNode::File(b) => FsNode::File(copy_bytes(b)),
        FsNode::Dir => FsNode::Dir,
        FsNode::Link(t) => FsNode::Link(t.clone()),
    }
}

/// Checks whether a path starts with a prefix.
fn has_prefix_at_start(p: &str, prefix: &str) -> (r: bool)
    ensures
        r == prefix@.is_prefix_of(p@),
{
    let r = crate::text::has_prefix_at(p, 0, prefix);
    proof {
        if crate::text::spec_has_prefix_at(p@, 0, prefix@) {
            assert(prefix@.is_prefix_of(p@));
        }
        if prefix@.is_prefix_of(p@) {
            assert(p@.subrange(0, prefix@.len() as int) == prefix@);
        }
    }
    r
}

/// The second state holds no more than the first: every lookup either
/// agrees or has become absent.  Uninstalling, removing and imploding only
/// ever shrink the filesystem this way.
pub open spec fn spec_shrinks(fs0: FsState, fs1: FsState) -> bool {
    forall|q: Seq<char>| fs1.find(q) == fs0.find(q) || fs1.find(q) is None
}

/// When no entry carries a key, lookup of that key fails.
pub proof fn lemma_no_key_find_none(s: Seq<(Seq<char>, FsNodeV)>, p: Seq<char>)
    requires
        forall|j: int| 0 <= j < s.len() ==> (#[trigger] s[j]).0 != p,
    ensures
        find_at(s, p) is None,
    decreases s.len(),
{
    if s.len() > 0 {
        assert(s[0].0 != p);
        assert forall|j: int| 0 <= j < s.skip(1).len() implies (#[trigger] s.skip(1)[j]).0 != p by {
            assert(s.skip(1)[j] == s[j + 1]);
        }
        lemma_no_key_find_none(s.skip(1), p);
    }
}

/// Replacing the first entry that carries a key changes lookups of that key
/// alone.
proof fn lemma_find_update(
    s_old: Seq<(Seq<char>, FsNodeV)>,
    s_new: Seq<(Seq<char>, FsNodeV)>,
    k: int,
    p: Seq<char>,
    q: Seq<char>,
)
    requires
        0 <= k < s_old.len(),
        s_new.len() == s_old.len(),
        s_old[k].0 == p,
        s_new[k].0 == p,
        forall|j: int| 0 <= j < s_old.len() && j != k ==> s_new[j] == s_old[j],
        forall|j: int| 0 <= j < k ==> (#[trigger] s_old[j]).0 != p,
    ensures
        find_at(s_new, q) == (if q == p {
            Some(s_new[k].1)
        } else {
            find_at(s_old, q)
        }),
    decreases k,
{
    if k == 0 {
        assert(s_new.skip(1) =~= s_old.skip(1));
    } else {
        assert(s_new[0] == s_old[0]);
        assert forall|j: int| 0 <= j < k - 1 implies (#[trigger] s_old.skip(1)[j]).0 != p by {
            assert(s_old.skip(1)[j] == s_old[j + 1]);
        }
        assert forall|j: int|
            0 <= j < s_old.skip(1).len() && j != k - 1 implies s_new.skip(1)[j] == s_old.skip(
            1,
        )[j] by {
            assert(s_new.skip(1)[j] == s_new[j + 1]);
            assert(s_old.skip(1)[j] == s_old[j + 1]);
        }
        lemma_find_update(s_old.skip(1), s_new.skip(1), k - 1, p, q);
        assert(s_new.skip(1)[k - 1] == s_new[k]);
    }
}

/// Copies a byte vector.
pub fn copy_bytes(v: &Vec<u8>) -> (r: Vec<u8>)
    ensures
        r@ == v@,
{
    let mut out: Vec<u8> = Vec::new();
    let mut k: usize = 0;
    while k < v.len()
        invariant
            k <= v@.len(),
            out@ == v@.take(k as int),
        decreases v@.len() - k,
    {
        out.push(v[k]);
        proof {
            assert(v@.take(k as int).push(v@[k as int]) =~= v@.take(k as int + 1));
        }
        k = k + 1;
    }
    proof {
        assert(v@.take(v@.len() as int) =~= v@);
    }
    out
}

} // verus!
