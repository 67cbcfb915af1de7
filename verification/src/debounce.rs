//! Slider drafts: the latest unsent value per monitor and feature, released
//! at most once by the timer of its own edit.
use vstd::prelude::*;

verus! {

/// The slider a draft belongs to.
#[derive(Clone, Copy, Debug, PartialEq, Eq, Hash, Structural)]
pub enum SliderFeature {
    Brightness,
    Contrast,
}

/// Identifies one edit: the topology generation it was made in and a
/// revision that is never reused.
#[derive(Clone, Copy, Debug, PartialEq, Eq, Structural)]
pub struct DebounceToken {
    generation: u64,
    revision: u64,
}

impl DebounceToken {
    /// The generation of the edit.
    pub closed spec fn generation_view(&self) -> u64 {
        self.generation
    }

    /// The revision of the edit.
    pub closed spec fn revision_view(&self) -> u64 {
        self.revision
    }

    /// The generation of the edit.
    pub fn generation(&self) -> (r: u64)
        ensures
            r == self.generation_view(),
    {
        self.generation
    }

    /// The revision of the edit.
    pub fn revision(&self) -> (r: u64)
        ensures
            r == self.revision_view(),
    {
        self.revision
    }
}

/// A draft key: monitor number and slider.
pub type DraftKey = (u32, SliderFeature);

/// The drafts as a map from key to (token, value).
pub open spec fn drafts_of(entries: Seq<(DraftKey, (DebounceToken, u16))>) -> Map<DraftKey, (DebounceToken, u16)> {
    Map::new(
        |k: DraftKey| exists|i: int| 0 <= i < entries.len() && #[trigger] entries[i].0 == k,
        |k: DraftKey| entries[choose|i: int| 0 <= i < entries.len() && #[trigger] entries[i].0 == k].1,
    )
}

/// No key appears twice.
pub open spec fn keys_unique(entries: Seq<(DraftKey, (DebounceToken, u16))>) -> bool {
    forall|i: int, j: int| 0 <= i < j < entries.len() ==> (#[trigger] entries[i]).0 != (#[trigger] entries[j]).0
}

/// Whether `token` is the timer of the latest edit of `key`, in `generation`.
pub open spec fn is_current(
    drafts: Map<DraftKey, (DebounceToken, u16)>,
    generation: u64,
    key: DraftKey,
    token: DebounceToken,
) -> bool {
    token.generation_view() == generation && drafts.contains_key(key) && drafts[key].0 == token
}

/// The value a timer releases: the draft's, only for the current timer.
pub open spec fn taken_value(
    drafts: Map<DraftKey, (DebounceToken, u16)>,
    generation: u64,
    key: DraftKey,
    token: DebounceToken,
) -> Option<u16> {
    if is_current(drafts, generation, key, token) {
        Some(drafts[key].1)
    } else {
        None
    }
}

/// The drafts left after a timer fired: the released draft is gone.
pub open spec fn drafts_after_take(
    drafts: Map<DraftKey, (DebounceToken, u16)>,
    generation: u64,
    key: DraftKey,
    token: DebounceToken,
) -> Map<DraftKey, (DebounceToken, u16)> {
    if is_current(drafts, generation, key, token) {
        drafts.remove(key)
    } else {
        drafts
    }
}

/// `d` is `s` after recording `value` for `key` in `generation`, which
/// handed out `token`.
pub open spec fn recorded(
    s: SliderDebounce,
    d: SliderDebounce,
    generation: u64,
    key: DraftKey,
    value: u16,
    token: DebounceToken,
) -> bool {
    &&& d.wf()
    &&& d.revision_view() == s.revision_view() + 1
    &&& token.generation_view() == generation
    &&& token.revision_view() == d.revision_view()
    &&& d.drafts() == s.drafts().insert(key, (token, value))
}

/// `d` is `s` after `invalidate`: no drafts, the revision count kept.
pub open spec fn invalidated(s: SliderDebounce, d: SliderDebounce) -> bool {
    &&& d.wf()
    &&& d.revision_view() == s.revision_view()
    &&& d.drafts() == Map::<DraftKey, (DebounceToken, u16)>::empty()
}

/// Drafts are kept apart from confirmed readings and from submitted jobs.
#[derive(Debug)]
pub struct SliderDebounce {
    revision: u64,
    pending: Vec<(DraftKey, (DebounceToken, u16))>,
}

impl Default for SliderDebounce {
    fn default() -> (r: SliderDebounce)
        ensures
            r.wf(),
            r.revision_view() == 0,
            r.drafts() == Map::<DraftKey, (DebounceToken, u16)>::empty(),
    {
        let r = SliderDebounce { revision: 0, pending: Vec::new() };
        proof {
            assert(drafts_of(r.pending@) =~= Map::<DraftKey, (DebounceToken, u16)>::empty());
        }
        r
    }
}

proof fn lemma_index_of(entries: Seq<(DraftKey, (DebounceToken, u16))>, i: int)
    requires
        keys_unique(entries),
        0 <= i < entries.len(),
    ensures
        drafts_of(entries).contains_key(entries[i].0),
        drafts_of(entries)[entries[i].0] == entries[i].1,
{
    let k = entries[i].0;
    let c = choose|c: int| 0 <= c < entries.len() && #[trigger] entries[c].0 == k;
    if c != i {
        if c < i {
            assert(entries[c].0 != entries[i].0);
        } else {
            assert(entries[i].0 != entries[c].0);
        }
    }
}

impl SliderDebounce {
    /// The last revision handed out.
    pub closed spec fn revision_view(&self) -> u64 {
        self.revision
    }

    /// The drafts waiting for their timers.
    pub closed spec fn drafts(&self) -> Map<DraftKey, (DebounceToken, u16)> {
        drafts_of(self.pending@)
    }

    /// Every waiting draft has a revision already handed out.
    pub closed spec fn wf(&self) -> bool {
        &&& keys_unique(self.pending@)
        &&& forall|i: int| 0 <= i < self.pending@.len() ==> (#[trigger] self.pending@[i]).1.0.revision <= self.revision
    }

    fn find(&self, key: DraftKey) -> (r: Option<usize>)
        requires
            self.wf(),
        ensures
            match r {
                Some(i) => i < self.pending@.len() && self.pending@[i as int].0 == key,
                None => !self.drafts().contains_key(key),
            },
    {
        let mut i: usize = 0;
        while i < self.pending.len()
            invariant
                i <= self.pending@.len(),
                forall|q: int| 0 <= q < i ==> self.pending@[q].0 != key,
            decreases self.pending.len() - i,
        {
            if self.pending[i].0.0 == key.0 && self.pending[i].0.1 == key.1 {
                return Some(i);
            }
            i = i + 1;
        }
        None
    }

    /// Whether another edit can still get a fresh revision.
    pub fn can_record(&self) -> (r: bool)
        ensures
            r == (self.revision_view() < u64::MAX),
    {
        self.revision < u64::MAX
    }

    /// Record an edit: it gets the next revision, never reused, and replaces
    /// the earlier draft for the same monitor and slider.
    pub fn record(&mut self, generation: u64, monitor_id: u32, feature: SliderFeature, value: u16) -> (r: DebounceToken)
        requires
            old(self).wf(),
            old(self).revision_view() < u64::MAX,
        ensures
            final(self).wf(),
            final(self).revision_view() == old(self).revision_view() + 1,
            r.generation_view() == generation,
            r.revision_view() == final(self).revision_view(),
            final(self).drafts() == old(self).drafts().insert((monitor_id, feature), (r, value)),
            recorded(*old(self), *final(self), generation, (monitor_id, feature), value, r),
    {
        self.revision = self.revision + 1;
        let token = DebounceToken { generation, revision: self.revision };
        let key = (monitor_id, feature);
        let ghost before = self.pending@;
        match self.find(key) {
            Some(i) => {
                self.pending.set(i, (key, (token, value)));
                proof {
                    assert(keys_unique(self.pending@)) by {
                        assert forall|a: int, b: int| 0 <= a < b < self.pending@.len() implies (#[trigger] self.pending@[a]).0
                            != (#[trigger] self.pending@[b]).0 by {
                            assert(before[a].0 != before[b].0);
                        }
                    }
                    assert forall|k: DraftKey| #[trigger] drafts_of(self.pending@).contains_key(k) == old(self).drafts().insert(key, (token, value)).contains_key(k) by {
                        if drafts_of(before).contains_key(k) {
                            let c = choose|c: int| 0 <= c < before.len() && #[trigger] before[c].0 == k;
                            assert(self.pending@[c].0 == k);
                        }
                        if drafts_of(self.pending@).contains_key(k) {
                            let c = choose|c: int| 0 <= c < self.pending@.len() && #[trigger] self.pending@[c].0 == k;
                            if c != i {
                                assert(before[c].0 == k);
                            }
                        }
                    }
                    assert forall|k: DraftKey| #[trigger] drafts_of(self.pending@).contains_key(k) implies drafts_of(self.pending@)[k]
                        == old(self).drafts().insert(key, (token, value))[k] by {
                        let c = choose|c: int| 0 <= c < self.pending@.len() && #[trigger] self.pending@[c].0 == k;
                        lemma_index_of(self.pending@, c);
                        if c != i {
                            assert(before[c] == self.pending@[c]);
                            lemma_index_of(before, c);
                        }
                    }
                    assert(drafts_of(self.pending@) =~= old(self).drafts().insert(key, (token, value)));
                }
            },
            None => {
                self.pending.push((key, (token, value)));
                proof {
                    assert(keys_unique(self.pending@)) by {
                        assert forall|a: int, b: int| 0 <= a < b < self.pending@.len() implies (#[trigger] self.pending@[a]).0
                            != (#[trigger] self.pending@[b]).0 by {
                            if b < before.len() {
                                assert(before[a].0 != before[b].0);
                            } else {
                                assert(before[a].0 == self.pending@[a].0);
                                if before[a].0 == key {
                                    assert(drafts_of(before).contains_key(key));
                                }
                            }
                        }
                    }
                    assert forall|k: DraftKey| #[trigger] drafts_of(self.pending@).contains_key(k) == old(self).drafts().insert(key, (token, value)).contains_key(k) by {
                        if drafts_of(before).contains_key(k) {
                            let c = choose|c: int| 0 <= c < before.len() && #[trigger] before[c].0 == k;
                            assert(self.pending@[c].0 == k);
                        }
                        if k == key {
                            assert(self.pending@[before.len() as int].0 == k);
                        }
                        if drafts_of(self.pending@).contains_key(k) && k != key {
                            let c = choose|c: int| 0 <= c < self.pending@.len() && #[trigger] self.pending@[c].0 == k;
                            assert(before[c].0 == k);
                        }
                    }
                    assert forall|k: DraftKey| #[trigger] drafts_of(self.pending@).contains_key(k) implies drafts_of(self.pending@)[k]
                        == old(self).drafts().insert(key, (token, value))[k] by {
                        let c = choose|c: int| 0 <= c < self.pending@.len() && #[trigger] self.pending@[c].0 == k;
                        lemma_index_of(self.pending@, c);
                        if c < before.len() {
                            assert(before[c] == self.pending@[c]);
                            lemma_index_of(before, c);
                        }
                    }
                    assert(drafts_of(self.pending@) =~= old(self).drafts().insert(key, (token, value)));
                }
            },
        }
        token
    }

    /// The draft value for a monitor's slider, if any.
    pub fn value(&self, monitor_id: u32, feature: SliderFeature) -> (r: Option<u16>)
        requires
            self.wf(),
        ensures
            match r {
                Some(v) => self.drafts().contains_key((monitor_id, feature)) && self.drafts()[(monitor_id, feature)].1 == v,
                None => !self.drafts().contains_key((monitor_id, feature)),
            },
    {
        match self.find((monitor_id, feature)) {
            Some(i) => {
                proof {
                    lemma_index_of(self.pending@, i as int);
                }
                Some(self.pending[i].1.1)
            },
            None => None,
        }
    }

    /// Release the draft for a monitor's slider, only for the timer of its
    /// latest edit and only in the generation it was made in; at most once.
    pub fn take_current(&mut self, generation: u64, monitor_id: u32, feature: SliderFeature, token: DebounceToken) -> (r: Option<u16>)
        requires
            old(self).wf(),
        ensures
            final(self).wf(),
            final(self).revision_view() == old(self).revision_view(),
            r == taken_value(old(self).drafts(), generation, (monitor_id, feature), token),
            final(self).drafts() == drafts_after_take(old(self).drafts(), generation, (monitor_id, feature), token),
    {
        let key = (monitor_id, feature);
        if token.generation != generation {
            return None;
        }
        let i = match self.find(key) {
            Some(i) => i,
            None => return None,
        };
        proof {
            lemma_index_of(self.pending@, i as int);
        }
        if self.pending[i].1.0 != token {
            return None;
        }
        let ghost before = self.pending@;
        let (_, (_, value)) = self.pending.remove(i);
        proof {
            assert(keys_unique(self.pending@)) by {
                assert forall|a: int, b: int| 0 <= a < b < self.pending@.len() implies (#[trigger] self.pending@[a]).0
                    != (#[trigger] self.pending@[b]).0 by {
                    let a0 = if a < i { a } else { a + 1 };
                    let b0 = if b < i { b } else { b + 1 };
                    assert(self.pending@[a] == before[a0]);
                    assert(self.pending@[b] == before[b0]);
                    assert(before[a0].0 != before[b0].0);
                }
            }
            assert forall|q: int| 0 <= q < self.pending@.len() implies (#[trigger] self.pending@[q]).1.0.revision <= self.revision by {
                let q0 = if q < i { q } else { q + 1 };
                assert(self.pending@[q] == before[q0]);
            }
            assert forall|k: DraftKey| #[trigger] drafts_of(self.pending@).contains_key(k) == drafts_of(before).remove(key).contains_key(k) by {
                if drafts_of(before).contains_key(k) && k != key {
                    let c = choose|c: int| 0 <= c < before.len() && #[trigger] before[c].0 == k;
                    assert(c != i);
                    let c2 = if c < i { c } else { c - 1 };
                    assert(self.pending@[c2] == before[c]);
                }
                if drafts_of(self.pending@).contains_key(k) {
                    let c = choose|c: int| 0 <= c < self.pending@.len() && #[trigger] self.pending@[c].0 == k;
                    let c0 = if c < i { c } else { c + 1 };
                    assert(self.pending@[c] == before[c0]);
                    assert(c0 != i);
                    assert(before[c0].0 != before[i as int].0);
                }
            }
            assert forall|k: DraftKey| #[trigger] drafts_of(self.pending@).contains_key(k) implies drafts_of(self.pending@)[k]
                == drafts_of(before).remove(key)[k] by {
                let c = choose|c: int| 0 <= c < self.pending@.len() && #[trigger] self.pending@[c].0 == k;
                lemma_index_of(self.pending@, c);
                let c0 = if c < i { c } else { c + 1 };
                assert(self.pending@[c] == before[c0]);
                lemma_index_of(before, c0);
            }
            assert(drafts_of(self.pending@) =~= drafts_of(before).remove(key));
        }
        Some(value)
    }

    /// Drop every draft. Revisions continue, so no old timer can come back.
    pub fn invalidate(&mut self)
        requires
            old(self).wf(),
        ensures
            final(self).wf(),
            final(self).revision_view() == old(self).revision_view(),
            final(self).drafts() == Map::<DraftKey, (DebounceToken, u16)>::empty(),
            invalidated(*old(self), *final(self)),
    {
        self.pending = Vec::new();
        proof {
            assert(drafts_of(self.pending@) =~= Map::<DraftKey, (DebounceToken, u16)>::empty());
        }
    }
}

} // verus!
