//! The store engine: an in-memory index of records, strictly sorted by key,
//! loaded from and persisted to a line-oriented log text.

use vstd::prelude::*;
use crate::codec::{
    clean, encode_line, join_lines, lemma_join_lines_push, lemma_parse_fields_clean,
    lemma_parse_line_of, lemma_split_join, lemma_split_lines_no_newline, line_key, line_of,
    no_newline, parse_line, parse_line_spec, split_lines, split_lines_spec,
};
use crate::order::{
    compare_keys, lemma_seq_lt_irrefl, lemma_seq_lt_trans, seq_lt, KeyOrder,
};

verus! {

/// One key/value pair of the store.
pub struct Record {
    pub key: String,
    pub value: String,
}

/// The map that a sequence of records denotes, later records winning on a
/// repeated key.
pub open spec fn map_of(rs: Seq<Record>) -> Map<Seq<char>, Seq<char>>
    decreases rs.len(),
{
    if rs.len() == 0 {
        Map::empty()
    } else {
        map_of(rs.drop_last()).insert(rs.last().key@, rs.last().value@)
    }
}

/// The map that loading a sequence of lines produces: each well-formed line
/// inserts its record in order, later lines winning on a repeated key;
/// malformed lines contribute nothing.
pub open spec fn load_lines_spec(ls: Seq<Seq<char>>) -> Map<Seq<char>, Seq<char>>
    decreases ls.len(),
{
    if ls.len() == 0 {
        Map::empty()
    } else {
        let m = load_lines_spec(ls.drop_last());
        match parse_line_spec(ls.last()) {
            Some(kv) => m.insert(kv.0, kv.1),
            None => m,
        }
    }
}

/// A key is in the map of a record sequence exactly when some record bears it.
proof fn lemma_map_of_contains(rs: Seq<Record>, k: Seq<char>)
    ensures
        map_of(rs).contains_key(k) <==> exists|i: int|
            0 <= i < rs.len() && (#[trigger] rs[i]).key@ == k,
    decreases rs.len(),
{
    if rs.len() > 0 {
        lemma_map_of_contains(rs.drop_last(), k);
        if k == rs.last().key@ {
            assert(rs[rs.len() - 1].key@ == k);
        } else {
            if exists|i: int| 0 <= i < rs.len() && (#[trigger] rs[i]).key@ == k {
                let i = choose|i: int| 0 <= i < rs.len() && (#[trigger] rs[i]).key@ == k;
                assert(i < rs.len() - 1);
                assert(rs.drop_last()[i].key@ == k);
            }
            if exists|i: int| 0 <= i < rs.drop_last().len() && (#[trigger] rs.drop_last()[i]).key@
                == k {
                let i = choose|i: int|
                    0 <= i < rs.drop_last().len() && (#[trigger] rs.drop_last()[i]).key@ == k;
                assert(rs[i].key@ == k);
            }
        }
    }
}

/// The map of a record sequence sends a key to the value of its last record
/// bearing that key.
proof fn lemma_map_of_value(rs: Seq<Record>, i: int)
    requires
        0 <= i < rs.len(),
        forall|j: int| i < j < rs.len() ==> (#[trigger] rs[j]).key@ != rs[i].key@,
    ensures
        map_of(rs).contains_key(rs[i].key@),
        map_of(rs)[rs[i].key@] == rs[i].value@,
    decreases rs.len(),
{
    if i < rs.len() - 1 {
        assert(rs.drop_last()[i] == rs[i]);
        assert forall|j: int| i < j < rs.drop_last().len() implies (#[trigger] rs.drop_last()[j]).key@
            != rs.drop_last()[i].key@ by {
            assert(rs.drop_last()[j] == rs[j]);
        }
        lemma_map_of_value(rs.drop_last(), i);
        assert(rs.last().key@ != rs[i].key@);
    }
}

/// Overwriting the last record that bears a key updates the map at that key.
proof fn lemma_map_of_update(rs: Seq<Record>, i: int, rec: Record)
    requires
        0 <= i < rs.len(),
        rec.key@ == rs[i].key@,
        forall|j: int| i < j < rs.len() ==> (#[trigger] rs[j]).key@ != rs[i].key@,
    ensures
        map_of(rs.update(i, rec)) == map_of(rs).insert(rec.key@, rec.value@),
    decreases rs.len(),
{
    let rs2 = rs.update(i, rec);
    if i == rs.len() - 1 {
        assert(rs2.drop_last() =~= rs.drop_last());
        assert(rs2.last() == rec);
        assert(map_of(rs).insert(rec.key@, rec.value@) =~= map_of(rs.drop_last()).insert(
            rec.key@,
            rec.value@,
        ));
    } else {
        assert(rs.drop_last()[i] == rs[i]);
        assert forall|j: int| i < j < rs.drop_last().len() implies (#[trigger] rs.drop_last()[j]).key@
            != rs.drop_last()[i].key@ by {
            assert(rs.drop_last()[j] == rs[j]);
        }
        lemma_map_of_update(rs.drop_last(), i, rec);
        assert(rs2.drop_last() =~= rs.drop_last().update(i, rec));
        assert(rs2.last() == rs.last());
        assert(rs.last().key@ != rec.key@);
        assert(map_of(rs.drop_last()).insert(rec.key@, rec.value@).insert(
            rs.last().key@,
            rs.last().value@,
        ) =~= map_of(rs.drop_last()).insert(rs.last().key@, rs.last().value@).insert(
            rec.key@,
            rec.value@,
        ));
    }
}

/// Inserting a record with a fresh key inserts its pair into the map.
proof fn lemma_map_of_insert(rs: Seq<Record>, i: int, rec: Record)
    requires
        0 <= i <= rs.len(),
        forall|j: int| 0 <= j < rs.len() ==> (#[trigger] rs[j]).key@ != rec.key@,
    ensures
        map_of(rs.insert(i, rec)) == map_of(rs).insert(rec.key@, rec.value@),
    decreases rs.len(),
{
    let rs2 = rs.insert(i, rec);
    if i == rs.len() {
        assert(rs2.drop_last() =~= rs);
        assert(rs2.last() == rec);
    } else {
        assert forall|j: int| 0 <= j < rs.drop_last().len() implies (#[trigger] rs.drop_last()[j]).key@
            != rec.key@ by {
            assert(rs.drop_last()[j] == rs[j]);
        }
        lemma_map_of_insert(rs.drop_last(), i, rec);
        assert(rs2.drop_last() =~= rs.drop_last().insert(i, rec));
        assert(rs2.last() == rs.last());
        assert(rs.last().key@ != rec.key@);
        assert(map_of(rs.drop_last()).insert(rec.key@, rec.value@).insert(
            rs.last().key@,
            rs.last().value@,
        ) =~= map_of(rs.drop_last()).insert(rs.last().key@, rs.last().value@).insert(
            rec.key@,
            rec.value@,
        ));
    }
}

/// Removing the only record that bears a key removes the key from the map.
proof fn lemma_map_of_remove(rs: Seq<Record>, i: int)
    requires
        0 <= i < rs.len(),
        forall|j: int| 0 <= j < rs.len() && j != i ==> (#[trigger] rs[j]).key@ != rs[i].key@,
    ensures
        map_of(rs.remove(i)) == map_of(rs).remove(rs[i].key@),
    decreases rs.len(),
{
    let rs2 = rs.remove(i);
    let k = rs[i].key@;
    if i == rs.len() - 1 {
        assert(rs2 =~= rs.drop_last());
        lemma_map_of_contains(rs.drop_last(), k);
        assert forall|j: int| 0 <= j < rs.drop_last().len() implies (#[trigger] rs.drop_last()[j]).key@
            != k by {
            assert(rs.drop_last()[j] == rs[j]);
        }
        assert(!map_of(rs.drop_last()).contains_key(k));
        assert(map_of(rs).remove(k) =~= map_of(rs.drop_last()));
    } else {
        assert(rs.drop_last()[i] == rs[i]);
        assert forall|j: int|
            0 <= j < rs.drop_last().len() && j != i implies (#[trigger] rs.drop_last()[j]).key@
            != rs.drop_last()[i].key@ by {
            assert(rs.drop_last()[j] == rs[j]);
        }
        lemma_map_of_remove(rs.drop_last(), i);
        assert(rs2.drop_last() =~= rs.drop_last().remove(i));
        assert(rs2.last() == rs.last());
        assert(rs.last().key@ != k);
        assert(map_of(rs.drop_last()).remove(k).insert(rs.last().key@, rs.last().value@)
            =~= map_of(rs.drop_last()).insert(rs.last().key@, rs.last().value@).remove(k));
    }
}

/// The store engine. It owns the in-memory index; the caller owns the file
/// and hands text in and out.
pub struct Database {
    records: Vec<Record>,
}

impl View for Database {
    type V = Map<Seq<char>, Seq<char>>;

    /// The in-memory index as a map from key to value.
    closed spec fn view(&self) -> Map<Seq<char>, Seq<char>> {
        map_of(self.records@)
    }
}

impl Database {
    /// Well-formed: keys strictly ascending (hence unique), and every field
    /// free of the delimiter and of line breaks, so that each record fits on
    /// one log line.
    pub closed spec fn wf(&self) -> bool {
        &&& forall|i: int, j: int|
            0 <= i < j < self.records@.len() ==> seq_lt(
                (#[trigger] self.records@[i]).key@,
                (#[trigger] self.records@[j]).key@,
            )
        &&& forall|i: int|
            0 <= i < self.records@.len() ==> clean((#[trigger] self.records@[i]).key@) && clean(
                self.records@[i].value@,
            )
    }

    /// The lines that persisting writes: one encoded line per record, in
    /// ascending key order.
    pub closed spec fn dump_lines(&self) -> Seq<Seq<char>> {
        self.records@.map_values(|r: Record| line_of(r.key@, r.value@))
    }

    /// A fresh, empty store.
    pub fn new() -> (db: Database)
        ensures
            db.wf(),
            db@ == Map::<Seq<char>, Seq<char>>::empty(),
    {
        let db = Database { records: Vec::new() };
        proof {
            assert(db.records@.len() == 0);
        }
        db
    }

    /// Index of the first record whose key is not below `key`, found by
    /// binary search over the sorted index.
    fn seek(&self, key: &str) -> (i: usize)
        requires
            self.wf(),
        ensures
            i <= self.records@.len(),
            forall|j: int| 0 <= j < i ==> seq_lt((#[trigger] self.records@[j]).key@, key@),
            forall|j: int| i <= j < self.records@.len() ==> !seq_lt(
                (#[trigger] self.records@[j]).key@,
                key@,
            ),
    {
        let mut lo: usize = 0;
        let mut hi: usize = self.records.len();
        while lo < hi
            invariant
                self.wf(),
                lo <= hi <= self.records@.len(),
                forall|j: int| 0 <= j < lo ==> seq_lt((#[trigger] self.records@[j]).key@, key@),
                forall|j: int| hi <= j < self.records@.len() ==> !seq_lt(
                    (#[trigger] self.records@[j]).key@,
                    key@,
                ),
            decreases hi - lo,
        {
            let mid = lo + (hi - lo) / 2;
            match compare_keys(self.records[mid].key.as_str(), key) {
                KeyOrder::Less => {
                    proof {
                        let rs = self.records@;
                        assert forall|j: int| 0 <= j < mid + 1 implies seq_lt(
                            (#[trigger] rs[j]).key@,
                            key@,
                        ) by {
                            if j < mid {
                                assert(seq_lt(rs[j].key@, rs[mid as int].key@));
                                lemma_seq_lt_trans(rs[j].key@, rs[mid as int].key@, key@);
                            }
                        }
                    }
                    lo = mid + 1;
                },
                _ => {
                    proof {
                        let rs = self.records@;
                        assert forall|j: int| mid <= j < rs.len() implies !seq_lt(
                            (#[trigger] rs[j]).key@,
                            key@,
                        ) by {
                            if seq_lt(rs[j].key@, key@) {
                                if j == mid {
                                    if rs[mid as int].key@ == key@ {
                                        lemma_seq_lt_irrefl(key@);
                                    } else {
                                        lemma_seq_lt_trans(key@, rs[mid as int].key@, key@);
                                        lemma_seq_lt_irrefl(key@);
                                    }
                                } else {
                                    assert(seq_lt(rs[mid as int].key@, rs[j].key@));
                                    lemma_seq_lt_trans(rs[mid as int].key@, rs[j].key@, key@);
                                    if rs[mid as int].key@ == key@ {
                                        lemma_seq_lt_irrefl(key@);
                                    } else {
                                        lemma_seq_lt_trans(key@, rs[mid as int].key@, key@);
                                        lemma_seq_lt_irrefl(key@);
                                    }
                                }
                            }
                        }
                    }
                    hi = mid;
                },
            }
        }
        lo
    }

    /// Look the key up in the in-memory index: its value when present,
    /// nothing when absent. No disk is touched.
    pub fn get(&self, key: &str) -> (r: Option<&String>)
        requires
            self.wf(),
        ensures
            match r {
                Some(v) => self@.contains_key(key@) && self@[key@] == v@,
                None => !self@.contains_key(key@),
            },
    {
        let i = self.seek(key);
        proof {
            lemma_map_of_contains(self.records@, key@);
        }
        if i < self.records.len() {
            match compare_keys(self.records[i].key.as_str(), key) {
                KeyOrder::Equal => {
                    proof {
                        let rs = self.records@;
                        assert forall|j: int| i < j < rs.len() implies (#[trigger] rs[j]).key@
                            != rs[i as int].key@ by {
                            if rs[j].key@ == rs[i as int].key@ {
                                lemma_seq_lt_irrefl(rs[j].key@);
                            }
                        }
                        lemma_map_of_value(rs, i as int);
                    }
                    Some(&self.records[i].value)
                },
                _ => {
                    proof {
                        let rs = self.records@;
                        assert forall|j: int| 0 <= j < rs.len() implies (#[trigger] rs[j]).key@
                            != key@ by {
                            if rs[j].key@ == key@ {
                                if j < i {
                                    lemma_seq_lt_irrefl(key@);
                                } else {
                                    assert(!seq_lt(rs[j].key@, key@));
                                    assert(seq_lt(key@, rs[i as int].key@));
                                    if j == i {
                                        lemma_seq_lt_irrefl(key@);
                                    } else {
                                        assert(seq_lt(rs[i as int].key@, rs[j].key@));
                                        lemma_seq_lt_trans(key@, rs[i as int].key@, rs[j].key@);
                                        lemma_seq_lt_irrefl(key@);
                                    }
                                }
                            }
                        }
                    }
                    None
                },
            }
        } else {
            proof {
                let rs = self.records@;
                assert forall|j: int| 0 <= j < rs.len() implies (#[trigger] rs[j]).key@ != key@ by {
                    if rs[j].key@ == key@ {
                        lemma_seq_lt_irrefl(key@);
                    }
                }
            }
            None
        }
    }

    /// Insert or overwrite the pair in the in-memory index, keeping the
    /// index sorted by key. Both fields must be free of the delimiter and of
    /// line breaks, or the line encoding would break.
    pub fn insert(&mut self, key: String, value: String)
        requires
            old(self).wf(),
            clean(key@),
            clean(value@),
        ensures
            final(self).wf(),
            final(self)@ == old(self)@.insert(key@, value@),
    {
        let i = self.seek(key.as_str());
        let ghost rs = self.records@;
        let ghost kv = key@;
        let ghost rec = Record { key, value };
        if i < self.records.len() {
            match compare_keys(self.records[i].key.as_str(), key.as_str()) {
                KeyOrder::Equal => {
                    proof {
                        assert forall|j: int| i < j < rs.len() implies (#[trigger] rs[j]).key@
                            != rs[i as int].key@ by {
                            if rs[j].key@ == rs[i as int].key@ {
                                lemma_seq_lt_irrefl(rs[j].key@);
                            }
                        }
                        lemma_map_of_update(rs, i as int, rec);
                    }
                    self.records[i] = Record { key, value };
                    proof {
                        let rs2 = self.records@;
                        assert(rs2 =~= rs.update(i as int, rec));
                        assert forall|p: int, q: int| 0 <= p < q < rs2.len() implies seq_lt(
                            (#[trigger] rs2[p]).key@,
                            (#[trigger] rs2[q]).key@,
                        ) by {
                            assert(seq_lt(rs[p].key@, rs[q].key@));
                            assert(rs2[p].key@ == rs[p].key@);
                            assert(rs2[q].key@ == rs[q].key@);
                        }
                    }
                },
                KeyOrder::Greater => {
                    proof {
                        assert forall|j: int| 0 <= j < rs.len() implies (#[trigger] rs[j]).key@
                            != kv by {
                            if rs[j].key@ == kv {
                                if j < i {
                                    lemma_seq_lt_irrefl(kv);
                                } else if j == i {
                                    lemma_seq_lt_irrefl(kv);
                                } else {
                                    assert(seq_lt(rs[i as int].key@, rs[j].key@));
                                    lemma_seq_lt_trans(kv, rs[i as int].key@, rs[j].key@);
                                    lemma_seq_lt_irrefl(kv);
                                }
                            }
                        }
                        lemma_map_of_insert(rs, i as int, rec);
                    }
                    self.records.insert(i, Record { key, value });
                    proof {
                        let rs2 = self.records@;
                        assert(rs2 =~= rs.insert(i as int, rec));
                        assert forall|p: int, q: int| 0 <= p < q < rs2.len() implies seq_lt(
                            (#[trigger] rs2[p]).key@,
                            (#[trigger] rs2[q]).key@,
                        ) by {
                            if q < i {
                                assert(rs2[p] == rs[p] && rs2[q] == rs[q]);
                            } else if q == i {
                                assert(rs2[p] == rs[p]);
                                assert(seq_lt(rs[p].key@, kv));
                            } else if p < i {
                                assert(rs2[p] == rs[p] && rs2[q] == rs[q - 1]);
                                if q - 1 == i {
                                    assert(seq_lt(kv, rs[i as int].key@));
                                    assert(seq_lt(rs[p].key@, kv));
                                    lemma_seq_lt_trans(rs[p].key@, kv, rs[i as int].key@);
                                } else {
                                    assert(seq_lt(rs[p].key@, rs[q - 1].key@));
                                }
                            } else if p == i {
                                assert(rs2[q] == rs[q - 1]);
                                assert(seq_lt(kv, rs[i as int].key@));
                                if q - 1 == i {
                                } else {
                                    assert(seq_lt(rs[i as int].key@, rs[q - 1].key@));
                                    lemma_seq_lt_trans(kv, rs[i as int].key@, rs[q - 1].key@);
                                }
                            } else {
                                assert(rs2[p] == rs[p - 1] && rs2[q] == rs[q - 1]);
                                assert(seq_lt(rs[p - 1].key@, rs[q - 1].key@));
                            }
                        }
                    }
                },
                KeyOrder::Less => {
                    proof {
                        assert(false);
                    }
                },
            }
        } else {
            proof {
                assert forall|j: int| 0 <= j < rs.len() implies (#[trigger] rs[j]).key@ != kv by {
                    if rs[j].key@ == kv {
                        lemma_seq_lt_irrefl(kv);
                    }
                }
            }
            self.records.push(Record { key, value });
            proof {
                let rs2 = self.records@;
                assert(rs2.drop_last() =~= rs);
                assert(rs2.last() == rec);
                assert forall|p: int, q: int| 0 <= p < q < rs2.len() implies seq_lt(
                    (#[trigger] rs2[p]).key@,
                    (#[trigger] rs2[q]).key@,
                ) by {
                    if q == rs2.len() - 1 {
                        assert(rs2[p] == rs[p]);
                        assert(seq_lt(rs[p].key@, kv));
                    } else {
                        assert(rs2[p] == rs[p] && rs2[q] == rs[q]);
                    }
                }
            }
        }
    }

    /// Remove the key from the in-memory index; a silent no-op when the key
    /// is absent.
    pub fn remove(&mut self, key: &str)
        requires
            old(self).wf(),
        ensures
            final(self).wf(),
            final(self)@ == old(self)@.remove(key@),
    {
        let i = self.seek(key);
        let ghost rs = self.records@;
        if i < self.records.len() {
            match compare_keys(self.records[i].key.as_str(), key) {
                KeyOrder::Equal => {
                    proof {
                        assert forall|j: int|
                            0 <= j < rs.len() && j != i implies (#[trigger] rs[j]).key@
                            != rs[i as int].key@ by {
                            if rs[j].key@ == rs[i as int].key@ {
                                lemma_seq_lt_irrefl(rs[j].key@);
                            }
                        }
                        lemma_map_of_remove(rs, i as int);
                    }
                    self.records.remove(i);
                    proof {
                        let rs2 = self.records@;
                        assert(rs2 =~= rs.remove(i as int));
                        assert forall|p: int, q: int| 0 <= p < q < rs2.len() implies seq_lt(
                            (#[trigger] rs2[p]).key@,
                            (#[trigger] rs2[q]).key@,
                        ) by {
                            let p0: int = if p < i {
                                p
                            } else {
                                p + 1
                            };
                            let q0: int = if q < i {
                                q
                            } else {
                                q + 1
                            };
                            assert(rs2[p] == rs[p0] && rs2[q] == rs[q0]);
                            assert(seq_lt(rs[p0].key@, rs[q0].key@));
                        }
                    }
                },
                _ => {
                    proof {
                        assert forall|j: int| 0 <= j < rs.len() implies (#[trigger] rs[j]).key@
                            != key@ by {
                            if rs[j].key@ == key@ {
                                if j < i {
                                    lemma_seq_lt_irrefl(key@);
                                } else if j == i {
                                    lemma_seq_lt_irrefl(key@);
                                } else {
                                    assert(seq_lt(rs[i as int].key@, rs[j].key@));
                                    lemma_seq_lt_trans(key@, rs[i as int].key@, rs[j].key@);
                                    lemma_seq_lt_irrefl(key@);
                                }
                            }
                        }
                        lemma_map_of_contains(rs, key@);
                        assert(map_of(rs).remove(key@) =~= map_of(rs));
                    }
                },
            }
        } else {
            proof {
                assert forall|j: int| 0 <= j < rs.len() implies (#[trigger] rs[j]).key@ != key@ by {
                    if rs[j].key@ == key@ {
                        lemma_seq_lt_irrefl(key@);
                    }
                }
                lemma_map_of_contains(rs, key@);
                assert(map_of(rs).remove(key@) =~= map_of(rs));
            }
        }
    }

    /// Build the index from the lines of a log text: well-formed lines
    /// insert their record in file order, later occurrences of a key
    /// winning; malformed lines are skipped without error.
    pub fn from_lines(lines: &Vec<String>) -> (db: Database)
        requires
            forall|i: int| 0 <= i < lines@.len() ==> no_newline((#[trigger] lines@[i])@),
        ensures
            db.wf(),
            db@ == load_lines_spec(lines.deep_view()),
    {
        let ghost ls = lines.deep_view();
        let mut db = Database::new();
        let mut idx: usize = 0;
        proof {
            assert(ls.take(0) =~= Seq::<Seq<char>>::empty());
        }
        while idx < lines.len()
            invariant
                idx <= lines@.len(),
                ls == lines.deep_view(),
                ls.len() == lines@.len(),
                forall|i: int| 0 <= i < lines@.len() ==> no_newline((#[trigger] lines@[i])@),
                forall|i: int| 0 <= i < ls.len() ==> ls[i] == (#[trigger] lines@[i])@,
                db.wf(),
                db@ == load_lines_spec(ls.take(idx as int)),
            decreases lines@.len() - idx,
        {
            let line: &String = &lines[idx];
            proof {
                lemma_parse_fields_clean(line@);
                assert(ls.take(idx as int + 1).drop_last() =~= ls.take(idx as int));
                assert(ls.take(idx as int + 1).last() == line@);
            }
            match parse_line(line.as_str()) {
                Some(kv) => {
                    db.insert(kv.0, kv.1);
                },
                None => {},
            }
            idx = idx + 1;
        }
        proof {
            assert(ls.take(ls.len() as int) =~= ls);
        }
        db
    }

    /// The lines that persisting writes, as owned strings: one line per
    /// record, in ascending key order.
    pub fn to_lines(&self) -> (lines: Vec<String>)
        ensures
            lines.deep_view() == self.dump_lines(),
    {
        let mut out: Vec<String> = Vec::new();
        let mut i: usize = 0;
        proof {
            assert(out.deep_view() =~= self.dump_lines().take(0));
        }
        while i < self.records.len()
            invariant
                i <= self.records@.len(),
                self.dump_lines().len() == self.records@.len(),
                out.deep_view() == self.dump_lines().take(i as int),
            decreases self.records@.len() - i,
        {
            let line = encode_line(self.records[i].key.as_str(), self.records[i].value.as_str());
            let ghost pre = out.deep_view();
            proof {
                assert(line@ == self.dump_lines()[i as int]);
            }
            out.push(line);
            proof {
                assert(out.deep_view() =~= pre.push(self.dump_lines()[i as int]));
                assert(pre.push(self.dump_lines()[i as int]) =~= self.dump_lines().take(
                    i as int + 1,
                ));
            }
            i = i + 1;
        }
        proof {
            assert(self.dump_lines().take(self.records@.len() as int) =~= self.dump_lines());
        }
        out
    }

    /// The full log text that persisting writes: every record's line in
    /// ascending key order, each followed by a line break.
    pub fn dump_text(&self) -> (text: String)
        ensures
            text@ == join_lines(self.dump_lines()),
    {
        let mut text = String::new();
        let mut i: usize = 0;
        proof {
            assert(join_lines(self.dump_lines().take(0)) =~= Seq::<char>::empty());
        }
        while i < self.records.len()
            invariant
                i <= self.records@.len(),
                self.dump_lines().len() == self.records@.len(),
                text@ == join_lines(self.dump_lines().take(i as int)),
            decreases self.records@.len() - i,
        {
            let line = encode_line(self.records[i].key.as_str(), self.records[i].value.as_str());
            text.append(line.as_str());
            text.append("\n");
            proof {
                reveal_strlit("\n");
                assert("\n"@ =~= seq!['\n']);
                lemma_join_lines_push(self.dump_lines().take(i as int), self.dump_lines()[i as int]);
                assert(self.dump_lines().take(i as int).push(self.dump_lines()[i as int])
                    =~= self.dump_lines().take(i as int + 1));
                assert(text@ =~= join_lines(self.dump_lines().take(i as int + 1)));
            }
            i = i + 1;
        }
        proof {
            assert(self.dump_lines().take(self.records@.len() as int) =~= self.dump_lines());
        }
        text
    }

    /// Build the index from a full log text, as construction from the log
    /// file does: split into lines, then load them in order.
    pub fn load_text(text: &str) -> (db: Database)
        ensures
            db.wf(),
            db@ == load_lines_spec(split_lines_spec(text@)),
    {
        proof {
            lemma_split_lines_no_newline(text@);
        }
        let lines = split_lines(text);
        proof {
            assert forall|i: int| 0 <= i < lines@.len() implies no_newline(
                (#[trigger] lines@[i])@,
            ) by {
                assert(lines.deep_view()[i] == lines@[i]@);
            }
        }
        Database::from_lines(&lines)
    }
}

/// Loading the lines that persisting a well-formed store writes rebuilds
/// exactly the in-memory index.
pub proof fn lemma_load_dump(db: &Database)
    requires
        db.wf(),
    ensures
        load_lines_spec(db.dump_lines()) == db@,
{
    lemma_load_dump_rec(db.records@);
}

proof fn lemma_load_dump_rec(rs: Seq<Record>)
    requires
        forall|i: int|
            0 <= i < rs.len() ==> clean((#[trigger] rs[i]).key@) && clean(rs[i].value@),
    ensures
        load_lines_spec(rs.map_values(|r: Record| line_of(r.key@, r.value@))) == map_of(rs),
    decreases rs.len(),
{
    let f = |r: Record| line_of(r.key@, r.value@);
    let ls = rs.map_values(f);
    if rs.len() == 0 {
        assert(ls.len() == 0);
    } else {
        assert forall|i: int| 0 <= i < rs.drop_last().len() implies clean(
            (#[trigger] rs.drop_last()[i]).key@,
        ) && clean(rs.drop_last()[i].value@) by {
            assert(rs.drop_last()[i] == rs[i]);
        }
        lemma_load_dump_rec(rs.drop_last());
        assert(ls.drop_last() =~= rs.drop_last().map_values(f));
        assert(ls.last() == line_of(rs.last().key@, rs.last().value@));
        lemma_parse_line_of(rs.last().key@, rs.last().value@);
    }
}

/// Load idempotence at the text level: parsing the very text that
/// persisting a well-formed store writes rebuilds exactly the in-memory
/// index. A value ending in a carriage return is left out: loading drops
/// one trailing carriage return per line, as a CRLF-tolerant reader must.
pub proof fn lemma_load_dump_text(db: &Database)
    requires
        db.wf(),
        forall|q: Seq<char>| #[trigger] db@.contains_key(q) ==> db@[q].len() == 0 || db@[q].last()
            != '\r',
    ensures
        load_lines_spec(split_lines_spec(join_lines(db.dump_lines()))) == db@,
{
    let rs = db.records@;
    assert forall|i: int| 0 <= i < rs.len() implies db@.contains_key((#[trigger] rs[i]).key@)
        && db@[rs[i].key@] == rs[i].value@ by {
        assert forall|j: int| i < j < rs.len() implies (#[trigger] rs[j]).key@ != rs[i].key@ by {
            if rs[j].key@ == rs[i].key@ {
                lemma_seq_lt_irrefl(rs[j].key@);
            }
        }
        lemma_map_of_value(rs, i);
    }
    assert forall|i: int| 0 <= i < db.dump_lines().len() implies no_newline(
        #[trigger] db.dump_lines()[i],
    ) && (db.dump_lines()[i].len() == 0 || db.dump_lines()[i].last() != '\r') by {
        let r = rs[i];
        let l = line_of(r.key@, r.value@);
        assert(db.dump_lines()[i] == l);
        assert forall|j: int| 0 <= j < l.len() implies l[j] != '\n' by {
            if j < r.key@.len() {
                assert(l[j] == r.key@[j]);
            } else if j == r.key@.len() {
                assert(l[j] == ',');
            } else {
                assert(l[j] == r.value@[j - r.key@.len() - 1]);
            }
        }
        assert(l.len() > 0);
        if r.value@.len() == 0 {
            assert(l.last() == ',');
        } else {
            assert(l.last() == r.value@.last());
            assert(db@.contains_key(r.key@));
            assert(db@[r.key@].last() != '\r');
        }
    }
    lemma_split_join(db.dump_lines());
    lemma_load_dump(db);
}

/// With pairwise distinct keys, the map of a record sequence has exactly one
/// entry per record.
proof fn lemma_map_of_card(rs: Seq<Record>)
    requires
        forall|i: int, j: int|
            0 <= i < j < rs.len() ==> (#[trigger] rs[i]).key@ != (#[trigger] rs[j]).key@,
    ensures
        map_of(rs).dom().finite(),
        map_of(rs).dom().len() == rs.len(),
    decreases rs.len(),
{
    if rs.len() > 0 {
        assert forall|i: int, j: int|
            0 <= i < j < rs.drop_last().len() implies (#[trigger] rs.drop_last()[i]).key@ != (
        #[trigger] rs.drop_last()[j]).key@ by {
            assert(rs.drop_last()[i] == rs[i] && rs.drop_last()[j] == rs[j]);
        }
        lemma_map_of_card(rs.drop_last());
        lemma_map_of_contains(rs.drop_last(), rs.last().key@);
        assert forall|i: int| 0 <= i < rs.drop_last().len() implies (
        #[trigger] rs.drop_last()[i]).key@ != rs.last().key@ by {
            assert(rs.drop_last()[i] == rs[i]);
            assert(rs[i].key@ != rs[rs.len() - 1].key@);
        }
        assert(!map_of(rs.drop_last()).contains_key(rs.last().key@));
        assert(map_of(rs).dom() =~= map_of(rs.drop_last()).dom().insert(rs.last().key@));
    }
}

/// The persisted lines are exactly the encoded index and nothing else: one
/// line per index record, in strictly ascending key order, each parsing to
/// its record's pair; and every key of the index stands on one such line.
pub proof fn lemma_dump_lines_keys(db: &Database, k: Seq<char>)
    requires
        db.wf(),
    ensures
        db@.dom().finite(),
        db.dump_lines().len() == db@.dom().len(),
        forall|i: int|
            0 <= i < db.dump_lines().len() ==> db@.contains_key(
                line_key(#[trigger] db.dump_lines()[i]),
            ) && parse_line_spec(db.dump_lines()[i]) == Some(
                (line_key(db.dump_lines()[i]), db@[line_key(db.dump_lines()[i])]),
            ),
        forall|i: int, j: int|
            0 <= i < j < db.dump_lines().len() ==> seq_lt(
                line_key(#[trigger] db.dump_lines()[i]),
                line_key(#[trigger] db.dump_lines()[j]),
            ),
        forall|i: int, j: int|
            0 <= i < j < db.dump_lines().len() ==> line_key(#[trigger] db.dump_lines()[i])
                != line_key(#[trigger] db.dump_lines()[j]),
        db@.contains_key(k) ==> exists|i: int|
            0 <= i < db.dump_lines().len() && parse_line_spec(#[trigger] db.dump_lines()[i])
                == Some((k, db@[k])),
{
    let rs = db.records@;
    let ls = db.dump_lines();
    assert forall|i: int| 0 <= i < ls.len() implies line_key(#[trigger] ls[i]) == (
    #[trigger] rs[i]).key@ && parse_line_spec(ls[i]) == Some((rs[i].key@, rs[i].value@)) by {
        assert(ls[i] == line_of(rs[i].key@, rs[i].value@));
        lemma_parse_line_of(rs[i].key@, rs[i].value@);
    }
    assert forall|i: int, j: int| 0 <= i < j < ls.len() implies line_key(#[trigger] ls[i])
        != line_key(#[trigger] ls[j]) && seq_lt(line_key(ls[i]), line_key(ls[j])) by {
        assert(seq_lt(rs[i].key@, rs[j].key@));
        if rs[i].key@ == rs[j].key@ {
            lemma_seq_lt_irrefl(rs[i].key@);
        }
    }
    assert forall|i: int| 0 <= i < rs.len() implies db@.contains_key((#[trigger] rs[i]).key@)
        && db@[rs[i].key@] == rs[i].value@ by {
        assert forall|j: int| i < j < rs.len() implies (#[trigger] rs[j]).key@ != rs[i].key@ by {
            if rs[j].key@ == rs[i].key@ {
                lemma_seq_lt_irrefl(rs[j].key@);
            }
        }
        lemma_map_of_value(rs, i);
    }
    assert forall|i: int, j: int|
        0 <= i < j < rs.len() implies (#[trigger] rs[i]).key@ != (#[trigger] rs[j]).key@ by {
        if rs[i].key@ == rs[j].key@ {
            lemma_seq_lt_irrefl(rs[i].key@);
        }
    }
    lemma_map_of_card(rs);
    if db@.contains_key(k) {
        lemma_map_of_contains(rs, k);
        let i = choose|i: int| 0 <= i < rs.len() && (#[trigger] rs[i]).key@ == k;
        assert(parse_line_spec(ls[i]) == Some((k, db@[k])));
    }
}

} // verus!
