use vstd::prelude::*;

use crate::save_information::SaveInformation;
use crate::save_type::SaveType;
use crate::saves::Saves;
use crate::sorting::{lemma_sort_desc_multiset, sort_desc, sort_saves};

verus! {

/// One character's slot in the table.
pub struct GroupEntry {
    pub name: String,
    pub saves: Saves,
}

/// The per-character grouping of records: an association list with unique
/// keys.  Insertion order of characters is kept but carries no meaning.
pub struct GroupTable {
    pub entries: Vec<GroupEntry>,
}

impl GroupTable {
    /// Keys are unique and every stored record belongs under its key.
    pub open spec fn wf(self) -> bool {
        &&& forall|i: int, j: int|
            0 <= i < j < self.entries@.len() ==> (#[trigger] self.entries@[i]).name@ != (
            #[trigger] self.entries@[j]).name@
        &&& forall|i: int|
            0 <= i < self.entries@.len() ==> (#[trigger] self.entries@[i]).saves.wf(
                self.entries@[i].name@,
            )
    }

    pub open spec fn contains_name(self, name: Seq<char>) -> bool {
        exists|i: int| 0 <= i < self.entries@.len() && (#[trigger] self.entries@[i]).name@ == name
    }

    pub open spec fn index_of(self, name: Seq<char>) -> int {
        choose|i: int| 0 <= i < self.entries@.len() && (#[trigger] self.entries@[i]).name@ == name
    }

    /// The saves stored under `name`.
    pub open spec fn group_of(self, name: Seq<char>) -> Saves {
        self.entries@[self.index_of(name)].saves
    }

    /// In a well-formed table the key determines the slot.
    pub proof fn lemma_index_of(self, name: Seq<char>, i: int)
        requires
            self.wf(),
            0 <= i < self.entries@.len(),
            self.entries@[i].name@ == name,
        ensures
            self.contains_name(name),
            self.index_of(name) == i,
            self.group_of(name) == self.entries@[i].saves,
    {
        let j = self.index_of(name);
        if j != i {
            assert(self.entries@[i].name@ != self.entries@[j].name@);
        }
    }

    pub fn new() -> (r: Self)
        ensures
            r.entries@ == Seq::<GroupEntry>::empty(),
            r.wf(),
    {
        GroupTable { entries: Vec::new() }
    }

    /// How many characters the table holds.
    pub fn len(&self) -> (n: usize)
        ensures
            n == self.entries@.len(),
    {
        self.entries.len()
    }

    pub fn contains_key(&self, name: &String) -> (r: bool)
        ensures
            r == self.contains_name(name@),
    {
        let n = self.entries.len();
        let mut i: usize = 0;
        while i < n
            invariant
                n == self.entries@.len(),
                0 <= i <= n,
                forall|j: int| 0 <= j < i ==> (#[trigger] self.entries@[j]).name@ != name@,
            decreases n - i,
        {
            if self.entries[i].name == *name {
                return true;
            }
            i += 1;
        }
        false
    }

    /// The saves stored under `name`, if the character is known.
    pub fn get(&self, name: &String) -> (r: Option<&Saves>)
        requires
            self.wf(),
        ensures
            match r {
                Some(saves) => self.contains_name(name@) && *saves == self.group_of(name@),
                None => !self.contains_name(name@),
            },
    {
        let n = self.entries.len();
        let mut i: usize = 0;
        while i < n
            invariant
                self.wf(),
                n == self.entries@.len(),
                0 <= i <= n,
                forall|j: int| 0 <= j < i ==> (#[trigger] self.entries@[j]).name@ != name@,
            decreases n - i,
        {
            if self.entries[i].name == *name {
                proof {
                    self.lemma_index_of(name@, i as int);
                }
                return Some(&self.entries[i].saves);
            }
            i += 1;
        }
        None
    }

    /// Put `saves` under `name`, replacing whatever the table held there.
    pub fn insert(&mut self, name: String, saves: Saves) -> (idx: usize)
        requires
            old(self).wf(),
            saves.wf(name@),
        ensures
            final(self).wf(),
            final(self).contains_name(name@),
            final(self).group_of(name@) == saves,
            forall|m: Seq<char>|
                #[trigger] final(self).contains_name(m) <==> old(self).contains_name(m) || m
                    == name@,
            forall|m: Seq<char>|
                m != name@ && old(self).contains_name(m) ==> #[trigger] final(self).group_of(m)
                    == old(self).group_of(m),
            idx < final(self).entries@.len(),
            final(self).entries@[idx as int].name@ == name@,
            final(self).entries@[idx as int].saves == saves,
    {
        let n = self.entries.len();
        let mut i: usize = 0;
        while i < n
            invariant
                *self == *old(self),
                old(self).wf(),
                saves.wf(name@),
                n == self.entries@.len(),
                0 <= i <= n,
                forall|j: int| 0 <= j < i ==> (#[trigger] self.entries@[j]).name@ != name@,
            decreases n - i,
        {
            if self.entries[i].name == name {
                let ghost prev = *self;
                let _removed = self.entries.remove(i);
                self.entries.insert(i, GroupEntry { name, saves });
                proof {
                    assert(prev.entries@[i as int].name@ == name@);
                    assert(prev.contains_name(name@));
                    assert(self.entries@[i as int].name@ == name@);
                    assert(self.entries@[i as int].saves == saves);
                    assert forall|a: int|
                        0 <= a < prev.entries@.len() && a != i implies (
                    #[trigger] self.entries@[a]) == prev.entries@[a] by {
                        assert(self.entries@[a] == prev.entries@.remove(i as int).insert(
                            i as int,
                            self.entries@[i as int],
                        )[a]);
                    }
                    assert forall|a: int|
                        0 <= a < self.entries@.len() implies (#[trigger] self.entries@[a]).saves.wf(
                        self.entries@[a].name@,
                    ) by {
                        if a != i {
                            assert(self.entries@[a] == prev.entries@[a]);
                        } else {
                            assert(self.entries@[a].saves == saves);
                            assert(self.entries@[a].name@ == name@);
                            assert(saves.wf(name@));
                        }
                    }
                    lemma_same_names_same_lookup(prev, *self, name@);
                    self.lemma_index_of(name@, i as int);
                }
                return i;
            }
            i += 1;
        }
        let ghost prev = *self;
        self.entries.push(GroupEntry { name, saves });
        proof {
            let m = self.entries@.len() - 1;
            assert(self.entries@[m].name@ == name@);
            assert forall|a: int| 0 <= a < m implies (#[trigger] self.entries@[a])
                == prev.entries@[a] by {}
            assert forall|mm: Seq<char>| #[trigger]
                self.contains_name(mm) <==> prev.contains_name(mm) || mm == name@ by {
                if self.contains_name(mm) {
                    let a = choose|a: int|
                        0 <= a < self.entries@.len() && (#[trigger] self.entries@[a]).name@ == mm;
                    if a < m {
                        assert(prev.entries@[a].name@ == mm);
                    }
                }
                if prev.contains_name(mm) {
                    let a = choose|a: int|
                        0 <= a < prev.entries@.len() && (#[trigger] prev.entries@[a]).name@ == mm;
                    assert(self.entries@[a].name@ == mm);
                }
            }
            self.lemma_index_of(name@, m);
            assert forall|mm: Seq<char>|
                mm != name@ && prev.contains_name(mm) implies #[trigger] self.group_of(mm)
                == prev.group_of(mm) by {
                let a = prev.index_of(mm);
                prev.lemma_index_of(mm, a);
                assert(self.entries@[a].name@ == mm);
                self.lemma_index_of(mm, a);
            }
        }
        n
    }
}

/// Two tables whose entries carry the same names at the same slots, and the
/// same saves off one slot, agree on every lookup but that slot's name.
proof fn lemma_same_names_same_lookup(before: GroupTable, after: GroupTable, name: Seq<char>)
    requires
        before.wf(),
        after.entries@.len() == before.entries@.len(),
        forall|i: int|
            0 <= i < before.entries@.len() ==> (#[trigger] after.entries@[i]).name@
                == before.entries@[i].name@,
        forall|i: int|
            0 <= i < before.entries@.len() && before.entries@[i].name@ != name ==> (
            #[trigger] after.entries@[i]).saves == before.entries@[i].saves,
        forall|i: int|
            0 <= i < after.entries@.len() ==> (#[trigger] after.entries@[i]).saves.wf(
                after.entries@[i].name@,
            ),
    ensures
        after.wf(),
        forall|m: Seq<char>|
            #[trigger] after.contains_name(m) == before.contains_name(m),
        forall|m: Seq<char>|
            m != name && before.contains_name(m) ==> #[trigger] after.group_of(m)
                == before.group_of(m),
        before.contains_name(name) ==> after.index_of(name) == before.index_of(name),
{
    assert forall|m: Seq<char>| #[trigger]
        after.contains_name(m) == before.contains_name(m) by {
        if after.contains_name(m) {
            let a = choose|a: int|
                0 <= a < after.entries@.len() && (#[trigger] after.entries@[a]).name@ == m;
            assert(before.entries@[a].name@ == m);
        }
        if before.contains_name(m) {
            let a = choose|a: int|
                0 <= a < before.entries@.len() && (#[trigger] before.entries@[a]).name@ == m;
            assert(after.entries@[a].name@ == m);
        }
    }
    assert forall|m: Seq<char>|
        m != name && before.contains_name(m) implies #[trigger] after.group_of(m)
        == before.group_of(m) by {
        let a = before.index_of(m);
        before.lemma_index_of(m, a);
        assert(after.entries@[a].name@ == m);
        after.lemma_index_of(m, a);
    }
    if before.contains_name(name) {
        let a = before.index_of(name);
        before.lemma_index_of(name, a);
        assert(after.entries@[a].name@ == name);
        after.lemma_index_of(name, a);
    }
}

/// A table and another with one slot's saves rewritten (same name there,
/// still well formed) agree everywhere else.
proof fn lemma_update_slot(prev: GroupTable, cur: GroupTable, i: int)
    requires
        prev.wf(),
        0 <= i < prev.entries@.len(),
        cur.entries@.len() == prev.entries@.len(),
        forall|a: int|
            0 <= a < prev.entries@.len() && a != i ==> (#[trigger] cur.entries@[a])
                == prev.entries@[a],
        cur.entries@[i].name@ == prev.entries@[i].name@,
        cur.entries@[i].saves.wf(cur.entries@[i].name@),
    ensures
        cur.wf(),
        forall|m: Seq<char>| #[trigger] cur.contains_name(m) == prev.contains_name(m),
        forall|m: Seq<char>|
            m != prev.entries@[i].name@ && prev.contains_name(m) ==> #[trigger] cur.group_of(m)
                == prev.group_of(m),
        cur.index_of(prev.entries@[i].name@) == i,
        cur.group_of(prev.entries@[i].name@) == cur.entries@[i].saves,
{
    assert forall|a: int|
        0 <= a < cur.entries@.len() implies (#[trigger] cur.entries@[a]).saves.wf(
        cur.entries@[a].name@,
    ) by {
        if a != i {
            assert(cur.entries@[a] == prev.entries@[a]);
        }
    }
    lemma_same_names_same_lookup(prev, cur, prev.entries@[i].name@);
    cur.lemma_index_of(prev.entries@[i].name@, i);
}

/// Append a record to the list its category selects; an `Unrecognized`
/// record is consumed and dropped.
pub fn insert_save(save_by_type: &mut Saves, save_information: SaveInformation)
    ensures
        match save_information.save_type {
            SaveType::Quick => final(save_by_type).quick_saves@ == old(
                save_by_type,
            ).quick_saves@.push(save_information) && final(save_by_type).auto_saves@ == old(
                save_by_type,
            ).auto_saves@,
            SaveType::Auto => final(save_by_type).auto_saves@ == old(
                save_by_type,
            ).auto_saves@.push(save_information) && final(save_by_type).quick_saves@ == old(
                save_by_type,
            ).quick_saves@,
            SaveType::Unrecognized => *final(save_by_type) == *old(save_by_type),
        },
{
    match save_information.save_type {
        SaveType::Quick => save_by_type.quick_saves.push(save_information),
        SaveType::Auto => save_by_type.auto_saves.push(save_information),
        SaveType::Unrecognized => {},
    }
}

/// The `quick` list of `map`'s group for `m`, or empty where `m` is unknown.
pub open spec fn quick_list(map: GroupTable, m: Seq<char>) -> Seq<SaveInformation> {
    if map.contains_name(m) {
        map.group_of(m).quick_saves@
    } else {
        Seq::empty()
    }
}

pub open spec fn auto_list(map: GroupTable, m: Seq<char>) -> Seq<SaveInformation> {
    if map.contains_name(m) {
        map.group_of(m).auto_saves@
    } else {
        Seq::empty()
    }
}

/// Fold one record into the table: look up (or create) the group for its
/// character and append the record to the list its category selects.  An
/// `Unrecognized` record still creates its character's (empty) group.
pub fn group_by_character(map: GroupTable, save_information: SaveInformation) -> (r: GroupTable)
    requires
        map.wf(),
    ensures
        r.wf(),
        ({
            let name = save_information.character_name@;
            &&& r.contains_name(name)
            &&& (forall|m: Seq<char>|
                #[trigger] r.contains_name(m) <==> map.contains_name(m) || m == name)
            &&& (forall|m: Seq<char>|
                m != name && map.contains_name(m) ==> #[trigger] r.group_of(m) == map.group_of(m))
            &&& r.group_of(name).quick_saves@ == (if save_information.save_type
                == SaveType::Quick {
                quick_list(map, name).push(save_information)
            } else {
                quick_list(map, name)
            })
            &&& r.group_of(name).auto_saves@ == (if save_information.save_type == SaveType::Auto {
                auto_list(map, name).push(save_information)
            } else {
                auto_list(map, name)
            })
        }),
{
    let mut table = map;
    let n = table.entries.len();
    let mut i: usize = 0;
    while i < n
        invariant
            table == map,
            map.wf(),
            n == table.entries@.len(),
            0 <= i <= n,
            forall|j: int|
                0 <= j < i ==> (#[trigger] table.entries@[j]).name@
                    != save_information.character_name@,
        decreases n - i,
    {
        if table.entries[i].name == save_information.character_name {
            let ghost name = save_information.character_name@;
            let ghost sv = save_information;
            let ghost prev = table;
            let mut entry = table.entries.remove(i);
            proof {
                prev.lemma_index_of(name, i as int);
            }
            insert_save(&mut entry.saves, save_information);
            table.entries.insert(i, entry);
            proof {
                assert forall|a: int|
                    0 <= a < prev.entries@.len() && a != i implies (#[trigger] table.entries@[a])
                    == prev.entries@[a] by {
                    assert(table.entries@[a] == prev.entries@.remove(i as int).insert(
                        i as int,
                        table.entries@[a],
                    )[a]);
                }
                assert(table.entries@[i as int].name@ == name);
                let upd = table.entries@[i as int].saves;
                let was = prev.entries@[i as int].saves;
                assert(was.wf(name));
                assert(upd.wf(name)) by {
                    match sv.save_type {
                        SaveType::Quick => {
                            assert forall|t: int|
                                0 <= t < upd.quick_saves@.len() implies (
                            #[trigger] upd.quick_saves@[t]).character_name@ == name
                                && upd.quick_saves@[t].save_type == SaveType::Quick by {
                                if t < was.quick_saves@.len() {
                                    assert(upd.quick_saves@[t] == was.quick_saves@[t]);
                                }
                            }
                        },
                        SaveType::Auto => {
                            assert forall|t: int|
                                0 <= t < upd.auto_saves@.len() implies (
                            #[trigger] upd.auto_saves@[t]).character_name@ == name
                                && upd.auto_saves@[t].save_type == SaveType::Auto by {
                                if t < was.auto_saves@.len() {
                                    assert(upd.auto_saves@[t] == was.auto_saves@[t]);
                                }
                            }
                        },
                        SaveType::Unrecognized => {},
                    }
                }
                lemma_update_slot(prev, table, i as int);
            }
            return table;
        }
        i += 1;
    }
    proof {
        assert(!table.contains_name(save_information.character_name@));
    }
    let key = save_information.character_name.clone();
    let mut saves = Saves::new();
    insert_save(&mut saves, save_information);
    proof {
        assert(saves.wf(key@)) by {
            match save_information.save_type {
                SaveType::Quick => {
                    assert(saves.quick_saves@ == Seq::<SaveInformation>::empty().push(
                        save_information,
                    ));
                },
                SaveType::Auto => {
                    assert(saves.auto_saves@ == Seq::<SaveInformation>::empty().push(
                        save_information,
                    ));
                },
                SaveType::Unrecognized => {},
            }
        }
    }
    table.insert(key, saves);
    table
}

/// Which characters occur among the records.
pub open spec fn seen_character(records: Seq<SaveInformation>, m: Seq<char>) -> bool {
    exists|i: int| 0 <= i < records.len() && (#[trigger] records[i]).character_name@ == m
}

/// The records of character `m` and category Quick, in input order.
pub open spec fn quick_of(records: Seq<SaveInformation>, m: Seq<char>) -> Seq<SaveInformation> {
    records.filter(
        |rec: SaveInformation| rec.character_name@ == m && rec.save_type == SaveType::Quick,
    )
}

/// The records of character `m` and category Auto, in input order.
pub open spec fn auto_of(records: Seq<SaveInformation>, m: Seq<char>) -> Seq<SaveInformation> {
    records.filter(
        |rec: SaveInformation| rec.character_name@ == m && rec.save_type == SaveType::Auto,
    )
}

/// Fold every record into a fresh table, left to right.  Each character seen
/// gets a group; each group's lists hold exactly that character's records of
/// the matching category, in input order; `Unrecognized` records are dropped.
pub fn group_saves(saves: Vec<SaveInformation>) -> (r: GroupTable)
    ensures
        r.wf(),
        forall|m: Seq<char>| #[trigger] r.contains_name(m) == seen_character(saves@, m),
        forall|m: Seq<char>|
            r.contains_name(m) ==> (#[trigger] r.group_of(m)).quick_saves@ == quick_of(saves@, m)
                && r.group_of(m).auto_saves@ == auto_of(saves@, m),
{
    let ghost orig = saves@;
    let total = saves.len();
    let mut input = saves;
    let mut table = GroupTable::new();
    let mut i: usize = 0;
    while input.len() > 0
        invariant
            orig.len() == total,
            i + input@.len() == orig.len(),
            input@ == orig.subrange(i as int, orig.len() as int),
            table.wf(),
            forall|m: Seq<char>|
                #[trigger] table.contains_name(m) == seen_character(orig.subrange(0, i as int), m),
            forall|m: Seq<char>|
                table.contains_name(m) ==> (#[trigger] table.group_of(m)).quick_saves@ == quick_of(
                    orig.subrange(0, i as int),
                    m,
                ) && table.group_of(m).auto_saves@ == auto_of(orig.subrange(0, i as int), m),
        decreases input@.len(),
    {
        let x = input.remove(0);
        proof {
            assert(x == orig[i as int]);
            assert(input@ =~= orig.subrange(i as int + 1, orig.len() as int));
        }
        let ghost before = table;
        let ghost prefix = orig.subrange(0, i as int);
        let ghost prefix1 = orig.subrange(0, i as int + 1);
        table = group_by_character(table, x);
        proof {
            assert(prefix1.drop_last() =~= prefix);
            assert(prefix1 =~= prefix.push(x));
            let name = x.character_name@;
            assert forall|m: Seq<char>| #[trigger]
                table.contains_name(m) == seen_character(prefix1, m) by {
                if table.contains_name(m) {
                    if m == name {
                        assert(prefix1[i as int].character_name@ == m);
                    } else {
                        let a = choose|a: int|
                            0 <= a < prefix.len() && (#[trigger] prefix[a]).character_name@ == m;
                        assert(prefix1[a].character_name@ == m);
                    }
                }
                if seen_character(prefix1, m) {
                    let a = choose|a: int|
                        0 <= a < prefix1.len() && (#[trigger] prefix1[a]).character_name@ == m;
                    if a < prefix.len() {
                        assert(prefix[a].character_name@ == m);
                        assert(seen_character(prefix, m));
                    }
                }
            }
            assert forall|m: Seq<char>|
                table.contains_name(m) implies (#[trigger] table.group_of(m)).quick_saves@
                == quick_of(prefix1, m) && table.group_of(m).auto_saves@ == auto_of(
                prefix1,
                m,
            ) by {
                let qpred = |rec: SaveInformation|
                    rec.character_name@ == m && rec.save_type == SaveType::Quick;
                let apred = |rec: SaveInformation|
                    rec.character_name@ == m && rec.save_type == SaveType::Auto;
                crate::seq_facts::lemma_filter_push(prefix, qpred, x);
                crate::seq_facts::lemma_filter_push(prefix, apred, x);
                if m == name {
                    if !before.contains_name(m) {
                        assert(!seen_character(prefix, m));
                        assert forall|j: int| 0 <= j < prefix.len() implies !qpred(
                            #[trigger] prefix[j],
                        ) && !apred(prefix[j]) by {
                            assert(prefix[j].character_name@ != m);
                        }
                        crate::seq_facts::lemma_filter_none(prefix, qpred);
                        crate::seq_facts::lemma_filter_none(prefix, apred);
                    }
                }
            }
        }
        i += 1;
    }
    proof {
        assert(orig.subrange(0, orig.len() as int) =~= orig);
    }
    table
}

/// Sort every group's two lists by sequence number descending, stably.  The
/// set of characters and each slot's name stay as they were.
pub fn sort_map_saves(map: GroupTable) -> (r: GroupTable)
    requires
        map.wf(),
    ensures
        r.wf(),
        r.entries@.len() == map.entries@.len(),
        forall|i: int|
            0 <= i < r.entries@.len() ==> (#[trigger] r.entries@[i]).name@
                == map.entries@[i].name@,
        forall|m: Seq<char>| #[trigger] r.contains_name(m) == map.contains_name(m),
        forall|m: Seq<char>|
            map.contains_name(m) ==> (#[trigger] r.group_of(m)).quick_saves@ == sort_desc(
                map.group_of(m).quick_saves@,
            ) && r.group_of(m).auto_saves@ == sort_desc(map.group_of(m).auto_saves@),
{
    let ghost gmap = map;
    let ghost orig = map.entries@;
    let total = map.entries.len();
    let mut input = map.entries;
    let mut out: Vec<GroupEntry> = Vec::new();
    let mut i: usize = 0;
    while input.len() > 0
        invariant
            gmap.wf(),
            gmap.entries@ == orig,
            orig.len() == total,
            i + input@.len() == orig.len(),
            input@ == orig.subrange(i as int, orig.len() as int),
            out@.len() == i,
            forall|a: int|
                0 <= a < i ==> (#[trigger] out@[a]).name@ == orig[a].name@
                    && out@[a].saves.quick_saves@ == sort_desc(orig[a].saves.quick_saves@)
                    && out@[a].saves.auto_saves@ == sort_desc(orig[a].saves.auto_saves@),
        decreases input@.len(),
    {
        let e = input.remove(0);
        proof {
            assert(e == orig[i as int]);
            assert(input@ =~= orig.subrange(i as int + 1, orig.len() as int));
        }
        let GroupEntry { name, saves } = e;
        let Saves { quick_saves, auto_saves } = saves;
        let sorted_quick = sort_saves(quick_saves);
        let sorted_auto = sort_saves(auto_saves);
        out.push(
            GroupEntry { name, saves: Saves { quick_saves: sorted_quick, auto_saves: sorted_auto } },
        );
        i += 1;
    }
    let r = GroupTable { entries: out };
    proof {
        assert forall|a: int|
            0 <= a < r.entries@.len() implies (#[trigger] r.entries@[a]).saves.wf(
            r.entries@[a].name@,
        ) by {
            let name = orig[a].name@;
            assert(orig[a].saves.wf(name));
            lemma_sorted_members(orig[a].saves.quick_saves@, name, SaveType::Quick);
            lemma_sorted_members(orig[a].saves.auto_saves@, name, SaveType::Auto);
        }
        assert forall|m: Seq<char>| #[trigger]
            r.contains_name(m) == gmap.contains_name(m) by {
            if r.contains_name(m) {
                let a = choose|a: int|
                    0 <= a < r.entries@.len() && (#[trigger] r.entries@[a]).name@ == m;
                assert(gmap.entries@[a].name@ == m);
            }
            if gmap.contains_name(m) {
                let a = choose|a: int|
                    0 <= a < gmap.entries@.len() && (#[trigger] gmap.entries@[a]).name@ == m;
                assert(r.entries@[a].name@ == m);
            }
        }
        assert forall|m: Seq<char>|
            gmap.contains_name(m) implies (#[trigger] r.group_of(m)).quick_saves@ == sort_desc(
            gmap.group_of(m).quick_saves@,
        ) && r.group_of(m).auto_saves@ == sort_desc(gmap.group_of(m).auto_saves@) by {
            let a = gmap.index_of(m);
            gmap.lemma_index_of(m, a);
            assert(r.entries@[a].name@ == m);
            r.lemma_index_of(m, a);
        }
    }
    r
}

/// Every record of a sorted list already stood in the unsorted one, so it
/// carries the same character name and category.
proof fn lemma_sorted_members(l: Seq<SaveInformation>, name: Seq<char>, t: SaveType)
    requires
        forall|j: int|
            0 <= j < l.len() ==> (#[trigger] l[j]).character_name@ == name && l[j].save_type == t,
    ensures
        forall|k: int|
            0 <= k < sort_desc(l).len() ==> (#[trigger] sort_desc(l)[k]).character_name@ == name
                && sort_desc(l)[k].save_type == t,
{
    broadcast use vstd::seq_lib::group_to_multiset_ensures;

    lemma_sort_desc_multiset(l);
    assert forall|k: int|
        0 <= k < sort_desc(l).len() implies (#[trigger] sort_desc(l)[k]).character_name@ == name
        && sort_desc(l)[k].save_type == t by {
        let e = sort_desc(l)[k];
        assert(sort_desc(l).contains(e));
        assert(sort_desc(l).to_multiset().count(e) > 0);
        assert(l.contains(e));
    }
}

// ---------------------------------------------------------------------------
// Grouping laws
// ---------------------------------------------------------------------------
/// Partition law of grouping: for any character, the Quick and Auto lists
/// together hold exactly that character's recognised records, with their
/// multiplicities — nothing lost, nothing duplicated — and their lengths sum
/// to the count of those records.  No `Unrecognized` record stands in either
/// list.
pub proof fn lemma_grouping_partition(records: Seq<SaveInformation>, m: Seq<char>)
    ensures
        quick_of(records, m).len() + auto_of(records, m).len() == records.filter(
            |rec: SaveInformation|
                rec.character_name@ == m && rec.save_type != SaveType::Unrecognized,
        ).len(),
        quick_of(records, m).to_multiset().add(auto_of(records, m).to_multiset())
            =~= records.filter(
            |rec: SaveInformation|
                rec.character_name@ == m && rec.save_type != SaveType::Unrecognized,
        ).to_multiset(),
        forall|k: int|
            0 <= k < quick_of(records, m).len() ==> (#[trigger] quick_of(records, m)[k]).save_type
                == SaveType::Quick && quick_of(records, m)[k].character_name@ == m,
        forall|k: int|
            0 <= k < auto_of(records, m).len() ==> (#[trigger] auto_of(records, m)[k]).save_type
                == SaveType::Auto && auto_of(records, m)[k].character_name@ == m,
    decreases records.len(),
{
    broadcast use vstd::seq_lib::group_to_multiset_ensures;
    broadcast use vstd::seq_lib::group_filter_ensures;

    let qpred = |rec: SaveInformation|
        rec.character_name@ == m && rec.save_type == SaveType::Quick;
    let apred = |rec: SaveInformation| rec.character_name@ == m && rec.save_type == SaveType::Auto;
    let rpred = |rec: SaveInformation|
        rec.character_name@ == m && rec.save_type != SaveType::Unrecognized;
    reveal(Seq::filter);
    if records.len() > 0 {
        let d = records.drop_last();
        let x = records.last();
        lemma_grouping_partition(d, m);
        assert(records.filter(qpred).to_multiset() =~= (if qpred(x) {
            d.filter(qpred).to_multiset().insert(x)
        } else {
            d.filter(qpred).to_multiset()
        }));
        assert(records.filter(apred).to_multiset() =~= (if apred(x) {
            d.filter(apred).to_multiset().insert(x)
        } else {
            d.filter(apred).to_multiset()
        }));
        assert(records.filter(rpred).to_multiset() =~= (if rpred(x) {
            d.filter(rpred).to_multiset().insert(x)
        } else {
            d.filter(rpred).to_multiset()
        }));
    }
}

} // verus!
