//! Key-state bookkeeping: which logical keys are held down, under the two
//! supported release-handling modes, plus the default key bindings.
//!
//! Keys are identified by plain codes: a character key is its Unicode
//! scalar value, and the arrow keys get codes above the scalar range so
//! they can never collide with a character.

use vstd::prelude::*;

verus! {

broadcast use vstd::seq_lib::group_seq_properties;

/// How key releases are handled: `Normal` removes a key from the table
/// when it is released; `Compatibility` never removes it and relies on
/// the table being cleared after each read, for terminals that do not
/// report key releases.
#[derive(Clone, Copy, Debug, PartialEq, Eq, Structural)]
pub enum InputMode {
    Normal,
    Compatibility,
}

pub const KEY_ARROW_LEFT: u32 = 0x110001;

pub const KEY_ARROW_RIGHT: u32 = 0x110002;

pub const KEY_ARROW_UP: u32 = 0x110003;

pub const KEY_ARROW_DOWN: u32 = 0x110004;

/// Key bindings for player movement.
#[derive(Clone, Copy, Debug, PartialEq, Eq, Structural)]
pub struct Settings {
    pub move_up: u32,
    pub move_right: u32,
    pub move_left: u32,
    pub move_down: u32,
}

impl Settings {
    /// The default bindings: the w, d, a and s character keys.
    pub fn default() -> (s: Settings)
        ensures
            s.move_up == 'w' as u32,
            s.move_right == 'd' as u32,
            s.move_left == 'a' as u32,
            s.move_down == 's' as u32,
    {
        Settings {
            move_up: 'w' as u32,
            move_right: 'd' as u32,
            move_left: 'a' as u32,
            move_down: 's' as u32,
        }
    }
}

/// The key codes of a key-state sequence, in order.
pub open spec fn keys_of(s: Seq<(u32, bool)>) -> Seq<u32> {
    s.map_values(|e: (u32, bool)| e.0)
}

/// The key-state map a sequence of entries denotes: later entries win.
pub open spec fn seq_to_map(s: Seq<(u32, bool)>) -> Map<u32, bool>
    decreases s.len(),
{
    if s.len() == 0 {
        Map::empty()
    } else {
        seq_to_map(s.drop_last()).insert(s.last().0, s.last().1)
    }
}

/// A key is in the denoted map exactly when some entry carries it.
proof fn lemma_seq_to_map_domain(s: Seq<(u32, bool)>)
    ensures
        forall|k: u32| #[trigger]
            seq_to_map(s).contains_key(k) <==> exists|j: int|
                0 <= j < s.len() && (#[trigger] s[j]).0 == k,
    decreases s.len(),
{
    if s.len() > 0 {
        lemma_seq_to_map_domain(s.drop_last());
        assert forall|k: u32| #[trigger]
            seq_to_map(s).contains_key(k) <==> exists|j: int|
                0 <= j < s.len() && (#[trigger] s[j]).0 == k by {
            if seq_to_map(s).contains_key(k) {
                if k == s.last().0 {
                    assert(s[s.len() - 1].0 == k);
                } else {
                    assert(seq_to_map(s.drop_last()).contains_key(k));
                    let j = choose|j: int|
                        0 <= j < s.drop_last().len() && (#[trigger] s.drop_last()[j]).0 == k;
                    assert(s[j].0 == k);
                }
            }
            if exists|j: int| 0 <= j < s.len() && (#[trigger] s[j]).0 == k {
                let j = choose|j: int| 0 <= j < s.len() && (#[trigger] s[j]).0 == k;
                if j < s.len() - 1 {
                    assert(s.drop_last()[j].0 == k);
                    assert(seq_to_map(s.drop_last()).contains_key(k));
                }
                assert(seq_to_map(s).contains_key(k));
            }
        }
    }
}

/// Under unique keys, each entry's value is the one the denoted map
/// holds for its key.
proof fn lemma_seq_to_map_value(s: Seq<(u32, bool)>, j: int)
    requires
        keys_of(s).no_duplicates(),
        0 <= j < s.len(),
    ensures
        seq_to_map(s).contains_key(s[j].0),
        seq_to_map(s)[s[j].0] == s[j].1,
    decreases s.len(),
{
    if j == s.len() - 1 {
    } else {
        assert(keys_of(s.drop_last()) =~= keys_of(s).drop_last());
        lemma_seq_to_map_value(s.drop_last(), j);
        assert(keys_of(s)[j] != keys_of(s)[s.len() - 1]);
        assert(s.drop_last()[j] == s[j]);
    }
}

/// Removing the entry at an index removes exactly its key from the
/// denoted map, and keeps the remaining keys unique.
proof fn lemma_seq_to_map_remove(s: Seq<(u32, bool)>, j: int)
    requires
        keys_of(s).no_duplicates(),
        0 <= j < s.len(),
    ensures
        keys_of(s.remove(j)).no_duplicates(),
        seq_to_map(s.remove(j)) == seq_to_map(s).remove(s[j].0),
    decreases s.len(),
{
    assert(keys_of(s.remove(j)) =~= keys_of(s).remove(j));
    assert(keys_of(s).remove(j).no_duplicates());
    lemma_seq_to_map_domain(s);
    lemma_seq_to_map_domain(s.drop_last());
    if j == s.len() - 1 {
        assert(s.remove(j) =~= s.drop_last());
        assert(!seq_to_map(s.drop_last()).contains_key(s[j].0)) by {
            if seq_to_map(s.drop_last()).contains_key(s[j].0) {
                let l = choose|l: int|
                    0 <= l < s.drop_last().len() && (#[trigger] s.drop_last()[l]).0 == s[j].0;
                assert(keys_of(s)[l] == keys_of(s)[j]);
            }
        }
        assert(seq_to_map(s.drop_last()) =~= seq_to_map(s).remove(s[j].0));
    } else {
        assert(keys_of(s.drop_last()) =~= keys_of(s).drop_last());
        lemma_seq_to_map_remove(s.drop_last(), j);
        assert(s.remove(j).drop_last() =~= s.drop_last().remove(j));
        assert(s.remove(j).last() == s.last());
        assert(s.drop_last()[j] == s[j]);
        assert(s[j].0 != s.last().0) by {
            assert(keys_of(s)[j] != keys_of(s)[s.len() - 1]);
        }
        assert(seq_to_map(s.remove(j)) == seq_to_map(s.drop_last().remove(j)).insert(
            s.last().0,
            s.last().1,
        ));
        assert(seq_to_map(s.drop_last()).remove(s[j].0).insert(s.last().0, s.last().1)
            =~= seq_to_map(s.drop_last()).insert(s.last().0, s.last().1).remove(s[j].0));
    }
}

/// The shared table of key states: each held key maps to whether it is
/// currently pressed. One entry per key.
pub struct KeyTable {
    entries: Vec<(u32, bool)>,
}

impl KeyTable {
    /// The table as a map from key code to pressed state.
    pub closed spec fn model(self) -> Map<u32, bool> {
        seq_to_map(self.entries@)
    }

    /// Each key appears at most once.
    pub closed spec fn wf(self) -> bool {
        keys_of(self.entries@).no_duplicates()
    }

    /// An empty table: no key is known at all.
    pub fn new() -> (t: KeyTable)
        ensures
            t.wf(),
            t.model() == Map::<u32, bool>::empty(),
    {
        let t = KeyTable { entries: Vec::new() };
        proof {
            assert(keys_of(t.entries@) =~= Seq::<u32>::empty());
        }
        t
    }

    /// The index of a key's entry, if the key is in the table.
    fn position_of(&self, key: u32) -> (r: Option<usize>)
        ensures
            match r {
                Some(j) => j < self.entries@.len() && self.entries@[j as int].0 == key,
                None => forall|j: int|
                    0 <= j < self.entries@.len() ==> (#[trigger] self.entries@[j]).0 != key,
            },
    {
        let mut i: usize = 0;
        while i < self.entries.len()
            invariant
                i <= self.entries@.len(),
                forall|j: int| 0 <= j < i ==> (#[trigger] self.entries@[j]).0 != key,
            decreases self.entries@.len() - i,
        {
            if self.entries[i].0 == key {
                return Some(i);
            }
            i = i + 1;
        }
        None
    }

    /// Drop a key's entry, if any.
    fn remove_key(&mut self, key: u32)
        requires
            old(self).wf(),
        ensures
            final(self).wf(),
            final(self).model() == old(self).model().remove(key),
    {
        match self.position_of(key) {
            Some(j) => {
                proof {
                    lemma_seq_to_map_remove(self.entries@, j as int);
                }
                self.entries.remove(j);
            },
            None => {
                proof {
                    lemma_seq_to_map_domain(self.entries@);
                    assert(!self.model().contains_key(key));
                    assert(self.model() =~= self.model().remove(key));
                }
            },
        }
    }

    /// Record a state for a key, replacing whatever the table held.
    fn set_key(&mut self, key: u32, down: bool)
        requires
            old(self).wf(),
        ensures
            final(self).wf(),
            final(self).model() == old(self).model().insert(key, down),
    {
        self.remove_key(key);
        let ghost s_mid = self.entries@;
        self.entries.push((key, down));
        proof {
            assert(self.entries@.drop_last() =~= s_mid);
            lemma_seq_to_map_domain(s_mid);
            assert forall|j: int|
                0 <= j < keys_of(self.entries@).len() - 1 implies #[trigger] keys_of(
                self.entries@,
            )[j] != key by {
                assert(self.entries@[j] == s_mid[j]);
                if s_mid[j].0 == key {
                    assert(seq_to_map(s_mid).contains_key(key));
                }
            }
            assert(keys_of(self.entries@).drop_last() =~= keys_of(s_mid));
            assert forall|a: int, b: int|
                0 <= a < b < keys_of(self.entries@).len() implies keys_of(self.entries@)[a]
                != keys_of(self.entries@)[b] by {
                if b == keys_of(self.entries@).len() - 1 {
                    assert(keys_of(self.entries@)[a] != key);
                } else {
                    assert(keys_of(s_mid)[a] != keys_of(s_mid)[b]);
                }
            }
            assert(keys_of(self.entries@).no_duplicates());
            assert(final(self).model() =~= old(self).model().insert(key, down));
        }
    }

    /// Record that a key went down.
    pub fn press(&mut self, key: u32)
        requires
            old(self).wf(),
        ensures
            final(self).wf(),
            final(self).model() == old(self).model().insert(key, true),
    {
        self.set_key(key, true);
    }

    /// Record that a key was released: in `Normal` mode the key leaves
    /// the table; in `Compatibility` mode releases are ignored.
    pub fn release(&mut self, key: u32, mode: InputMode)
        requires
            old(self).wf(),
        ensures
            final(self).wf(),
            final(self).model() == (if mode == InputMode::Normal {
                old(self).model().remove(key)
            } else {
                old(self).model()
            }),
    {
        match mode {
            InputMode::Normal => self.remove_key(key),
            InputMode::Compatibility => {},
        }
    }

    /// The recorded state of one key: `None` when the table never saw it
    /// (or it was released in `Normal` mode).
    pub fn get(&self, key: u32) -> (r: Option<bool>)
        requires
            self.wf(),
        ensures
            r == (if self.model().contains_key(key) {
                Some(self.model()[key])
            } else {
                None::<bool>
            }),
    {
        proof {
            lemma_seq_to_map_domain(self.entries@);
        }
        match self.position_of(key) {
            Some(j) => {
                proof {
                    lemma_seq_to_map_value(self.entries@, j as int);
                }
                Some(self.entries[j].1)
            },
            None => None,
        }
    }

    /// Edge-triggered query: true exactly when the key is recorded as
    /// pressed, and then the press is consumed (marked released) so a
    /// second query returns false until the key goes down again.
    pub fn get_key_once(&mut self, key: u32) -> (r: bool)
        requires
            old(self).wf(),
        ensures
            final(self).wf(),
            r == (old(self).model().contains_key(key) && old(self).model()[key]),
            final(self).model() == (if r {
                old(self).model().insert(key, false)
            } else {
                old(self).model()
            }),
    {
        let pressed = match self.get(key) {
            Some(true) => true,
            _ => false,
        };
        if pressed {
            self.set_key(key, false);
        }
        pressed
    }

    /// A snapshot of every key's recorded state. In `Compatibility` mode
    /// the table is cleared afterwards, since no release events will
    /// ever clean it up.
    pub fn get_key_states(&mut self, mode: InputMode) -> (keys: Vec<(u32, bool)>)
        requires
            old(self).wf(),
        ensures
            final(self).wf(),
            keys_of(keys@).no_duplicates(),
            seq_to_map(keys@) == old(self).model(),
            final(self).model() == (if mode == InputMode::Compatibility {
                Map::<u32, bool>::empty()
            } else {
                old(self).model()
            }),
    {
        let mut keys: Vec<(u32, bool)> = Vec::new();
        let mut i: usize = 0;
        while i < self.entries.len()
            invariant
                i <= self.entries@.len(),
                self.wf(),
                self.entries@ == old(self).entries@,
                keys@ =~= self.entries@.take(i as int),
            decreases self.entries@.len() - i,
        {
            let e = self.entries[i];
            keys.push(e);
            i = i + 1;
        }
        proof {
            assert(keys@ =~= self.entries@);
            assert(keys_of(keys@) =~= keys_of(self.entries@));
        }
        match mode {
            InputMode::Compatibility => {
                self.entries.clear();
                proof {
                    assert(keys_of(self.entries@) =~= Seq::<u32>::empty());
                    assert(self.model() =~= Map::<u32, bool>::empty());
                }
            },
            InputMode::Normal => {},
        }
        keys
    }
}

} // verus!
