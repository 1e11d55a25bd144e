//! The record store: the identifier counter and the durable ordered
//! map, composed behind verified operations.

use vstd::prelude::*;

use crate::codec::decode;
use crate::codec::decode_spec;
use crate::codec::encode;
use crate::codec::encode_spec;
use crate::codec::encoded_len;
use crate::codec::lemma_bytes_deep_view;
use crate::codec::lemma_blobs_deep_view_index;
use crate::codec::lemma_decode_wf;
use crate::codec::lemma_encode_len;
use crate::codec::lemma_round_trip;
use crate::codec::lemma_options_len_bound;
use crate::codec::lemma_options_len_nonneg;
use crate::codec::options_len;
use crate::record::make_zero_counts;
use crate::record::record_new;
use crate::record::zero_counts;
use crate::record::Error;
use crate::record::Quiz;
use crate::record::QuizPayload;
use crate::record::QuizView;
use crate::record::MAX_VALUE_SIZE;
use crate::stable::byte_map_entries;
use crate::stable::id_cell_value;
use crate::stable::is_ascending_entry_list;
use crate::stable::new_backing;
use crate::stable::pairs_view;
use crate::stable::ByteMap;
use crate::stable::IdCell;
use crate::stable::RegionPool;

verus! {

/// The whole durable state at once: the counter and the raw entries.
#[verifier::ext_equal]
pub ghost struct StoreView {
    pub counter: u64,
    pub entries: Map<u64, Seq<u8>>,
}

/// The record store: the identifier counter in one region, the record
/// map in another, reached only through the operations below.
pub struct Store {
    ids: IdCell,
    records: ByteMap,
}

impl View for Store {
    type V = StoreView;

    closed spec fn view(&self) -> StoreView {
        StoreView {
            counter: id_cell_value(self.ids),
            entries: byte_map_entries(self.records),
        }
    }
}

/// Opens the region pool over a fresh backing memory.
pub fn open_pool() -> (r: RegionPool) {
    RegionPool::init(new_backing())
}

/// The record an update request stores over an existing one: new texts,
/// tallies reset to zero, creation time kept, update time set.
pub open spec fn record_updated(
    q0: QuizView,
    question: Seq<u8>,
    options: Seq<Seq<u8>>,
    now: u64,
) -> QuizView {
    QuizView {
        id: q0.id,
        question,
        options,
        answers: zero_counts(options.len()),
        created_at: q0.created_at,
        updated_at: Some(now),
    }
}

/// The record a vote stores: the tally at `idx` raised by one and the
/// update time set; everything else kept.
pub open spec fn record_voted(q0: QuizView, idx: int, now: u64) -> QuizView {
    QuizView {
        answers: q0.answers.update(idx, (q0.answers[idx] + 1) as u32),
        updated_at: Some(now),
        ..q0
    }
}

/// The encoded size of any record built from this prompt and these
/// labels; the tally values never change it.
pub open spec fn payload_encoded_len(question: Seq<u8>, options: Seq<Seq<u8>>) -> int {
    8 + 8 + 9 + (4 + question.len()) + 4 + options_len(options) + 4 * options.len()
}

/// The store's data-model invariant: every entry's bytes fit the cap
/// and decode to a record that carries the entry's key as its own
/// identifier.  An empty map satisfies it, and every write below
/// preserves it; what a region held before the store ever wrote to it
/// is outside any contract, so the operations state preservation
/// rather than the invariant outright.
pub open spec fn entries_wf(e: Map<u64, Seq<u8>>) -> bool {
    forall|k: u64|
        #[trigger] e.contains_key(k) ==> e[k].len() <= MAX_VALUE_SIZE as int && (decode_spec(
            e[k],
        ) matches Some(q) && q.id == k)
}

/// The label lengths split around any cut.
proof fn lemma_options_len_split(s: Seq<Seq<u8>>, i: int)
    requires
        0 <= i <= s.len(),
    ensures
        options_len(s) == options_len(s.take(i)) + options_len(s.skip(i)),
    decreases i,
{
    if i == 0 {
        assert(s.take(0) =~= Seq::<Seq<u8>>::empty());
        assert(s.skip(0) =~= s);
    } else {
        lemma_options_len_split(s.skip(1), i - 1);
        assert(s.skip(1).take(i - 1) =~= s.take(i).skip(1));
        assert(s.skip(1).skip(i - 1) =~= s.skip(i));
        assert(s.take(i)[0] == s[0]);
        assert(options_len(s.take(i)) == 4 + s[0].len() + options_len(s.take(i).skip(1)));
    }
}

/// A record whose tallies match its labels and whose encoding fits the
/// cap is well formed.
proof fn lemma_fits_wf(q: QuizView)
    requires
        q.answers.len() == q.options.len(),
        encoded_len(q) <= MAX_VALUE_SIZE as int,
    ensures
        q.wf(),
{
    lemma_options_len_nonneg(q.options);
    assert forall|i: int| 0 <= i < q.options.len() implies (#[trigger] q.options[i]).len()
        < 0x1_0000_0000 by {
        lemma_options_len_bound(q.options, i);
    }
}

/// Decides whether a record built from this prompt and these labels
/// would fit the map's value-size cap.
pub fn payload_fits(question: &Vec<u8>, options: &Vec<Vec<u8>>) -> (r: bool)
    ensures
        r == (payload_encoded_len(question@, options.deep_view()) <= MAX_VALUE_SIZE as int),
{
    broadcast use lemma_bytes_deep_view, lemma_blobs_deep_view_index;

    let ghost dv = options.deep_view();
    proof {
        lemma_options_len_nonneg(dv);
    }
    if question.len() > MAX_VALUE_SIZE {
        return false;
    }
    let mut total: usize = 33 + question.len();
    if total > MAX_VALUE_SIZE {
        return false;
    }
    let mut i: usize = 0;
    while i < options.len()
        invariant
            i <= options@.len(),
            dv == options.deep_view(),
            total == 33 + question@.len() + options_len(dv.take(i as int)) + 4 * i,
            total <= MAX_VALUE_SIZE,
        decreases options@.len() - i,
    {
        broadcast use lemma_bytes_deep_view, lemma_blobs_deep_view_index;

        proof {
            lemma_options_len_split(dv, i as int);
            lemma_options_len_nonneg(dv.skip(i as int));
            lemma_options_len_nonneg(dv.skip(i as int + 1));
            assert(dv.skip(i as int)[0] == dv[i as int]);
            assert(dv.skip(i as int).skip(1) =~= dv.skip(i as int + 1));
            assert(options_len(dv.skip(i as int)) == 4 + dv[i as int].len() + options_len(
                dv.skip(i as int + 1),
            ));
            assert(dv.take(i as int + 1).drop_last() =~= dv.take(i as int));
            lemma_options_len_split(dv, i as int + 1);
        }
        let ol = options[i].len();
        if ol > MAX_VALUE_SIZE {
            return false;
        }
        if MAX_VALUE_SIZE - total < 8 + ol {
            proof {
                lemma_options_len_split(dv, i as int + 1);
            }
            return false;
        }
        total = total + 8 + ol;
        proof {
            assert(options_len(dv.take(i as int + 1)) == options_len(dv.take(i as int)) + 4
                + dv[i as int].len());
        }
        i = i + 1;
    }
    proof {
        assert(dv.take(dv.len() as int) =~= dv);
    }
    true
}

/// Compares two byte strings by value.
pub fn bytes_eq(a: &Vec<u8>, b: &Vec<u8>) -> (r: bool)
    ensures
        r == (a@ == b@),
{
    if a.len() != b.len() {
        return false;
    }
    let mut i: usize = 0;
    while i < a.len()
        invariant
            a@.len() == b@.len(),
            i <= a@.len(),
            forall|j: int| 0 <= j < i ==> a@[j] == b@[j],
        decreases a@.len() - i,
    {
        if a[i] != b[i] {
            return false;
        }
        i = i + 1;
    }
    proof {
        assert(a@ =~= b@);
    }
    true
}

/// Finds the first label equal to `x`, as `index_of_first` names it.
pub fn find_option(options: &Vec<Vec<u8>>, x: &Vec<u8>) -> (r: Option<usize>)
    ensures
        match r {
            Some(i) => options.deep_view().index_of_first(x@) == Some(i as int),
            None => options.deep_view().index_of_first(x@) is None,
        },
{
    broadcast use lemma_bytes_deep_view, lemma_blobs_deep_view_index;

    let ghost dv = options.deep_view();
    let mut i: usize = 0;
    while i < options.len()
        invariant
            i <= options@.len(),
            dv == options.deep_view(),
            forall|j: int| 0 <= j < i ==> dv[j] != x@,
        decreases options@.len() - i,
    {
        broadcast use lemma_bytes_deep_view, lemma_blobs_deep_view_index;

        if bytes_eq(&options[i], x) {
            proof {
                assert(dv[i as int] == x@);
                assert(dv.contains(x@));
                dv.index_of_first_ensures(x@);
                if let Some(k) = dv.index_of_first(x@) {
                    assert(!(k < i as int));
                    assert(!(k > i as int)) by {
                        if k > i as int {
                            assert(dv[i as int] != x@);
                        }
                    }
                }
            }
            return Some(i);
        }
        i = i + 1;
    }
    proof {
        dv.index_of_first_ensures(x@);
        if dv.contains(x@) {
            let w = choose|j: int| 0 <= j < dv.len() && dv[j] == x@;
            assert(dv[w] != x@);
        }
    }
    None
}

impl Store {
    /// Opens the store in the pool's regions: the counter in region 0,
    /// the record map in region 1.  Every entry the map's region already
    /// held is visible again; the counter keeps its value the same way.
    pub fn open(pool: &RegionPool) -> (r: Store)
        ensures
            r@.entries.dom().finite(),
    {
        let ids = IdCell::init(pool.region(0));
        let records = ByteMap::init(pool.region(1));
        Store { ids, records }
    }

    /// The value the identifier counter holds now.
    pub fn id_counter(&self) -> (r: u64)
        ensures
            r == self@.counter,
    {
        self.ids.get()
    }

    /// Encodes the record and stores it under its own identifier.
    pub fn do_insert(&mut self, quiz: &Quiz)
        requires
            quiz@.wf(),
            encoded_len(quiz@) <= MAX_VALUE_SIZE as int,
        ensures
            final(self)@.entries == old(self)@.entries.insert(quiz@.id, encode_spec(quiz@)),
            final(self)@.counter == old(self)@.counter,
            entries_wf(old(self)@.entries) ==> entries_wf(final(self)@.entries),
    {
        let bytes = encode(quiz);
        self.records.insert(quiz.id, bytes);
        proof {
            lemma_round_trip(quiz@);
            lemma_encode_len(quiz@);
            let e0 = old(self)@.entries;
            let e1 = self@.entries;
            if entries_wf(e0) {
                assert forall|k: u64| #[trigger] e1.contains_key(k) implies e1[k].len()
                    <= MAX_VALUE_SIZE as int && (decode_spec(e1[k]) matches Some(q) && q.id
                    == k) by {
                    if k != quiz@.id {
                        assert(e0.contains_key(k) && e1[k] == e0[k]);
                    }
                }
            }
        }
    }

    /// Looks an identifier up and decodes what is stored under it,
    /// telling absence and corruption apart.
    pub fn get_quiz(&self, id: u64) -> (r: Result<Quiz, Error>)
        ensures
            (r matches Err(Error::NotFound) <==> !self@.entries.contains_key(id)),
            (r matches Err(Error::CorruptData) <==> self@.entries.contains_key(id) && decode_spec(
                self@.entries[id],
            ) is None),
            (r matches Ok(q) ==> self@.entries.contains_key(id) && decode_spec(self@.entries[id])
                == Some(q@)),
            (self@.entries.contains_key(id) && decode_spec(self@.entries[id]) is Some ==> r is Ok),
    {
        broadcast use lemma_bytes_deep_view;

        match self.records.get(id) {
            None => Err(Error::NotFound),
            Some(bytes) => match decode(&bytes) {
                Some(q) => Ok(q),
                None => Err(Error::CorruptData),
            },
        }
    }

    /// The stored record under an identifier, if there is one and its
    /// bytes decode.
    pub fn _get_quiz(&self, id: u64) -> (r: Option<Quiz>)
        ensures
            match r {
                Some(q) => self@.entries.contains_key(id) && decode_spec(self@.entries[id]) == Some(
                    q@,
                ),
                None => !self@.entries.contains_key(id) || decode_spec(self@.entries[id]) is None,
            },
    {
        match self.get_quiz(id) {
            Ok(q) => Some(q),
            Err(_) => None,
        }
    }

    /// Allocates the next identifier, builds the record with zeroed
    /// tallies, and stores it; nothing changes when the record would
    /// not fit the value-size cap.
    pub fn create_quiz(&mut self, payload: QuizPayload, now: u64) -> (r: Option<Quiz>)
        requires
            old(self)@.counter < u64::MAX,
        ensures
            ({
                let id = (old(self)@.counter + 1) as u64;
                let q = record_new(id, payload.question@, payload.options.deep_view(), now);
                match r {
                    Some(quiz) => encoded_len(q) <= MAX_VALUE_SIZE as int && quiz@ == q && final(self)@.counter == id && final(self)@.entries == old(self)@.entries.insert(
                        id,
                        encode_spec(q),
                    ),
                    None => encoded_len(q) > MAX_VALUE_SIZE as int && final(self)@ == old(self)@,
                }
            }),
            entries_wf(old(self)@.entries) ==> entries_wf(final(self)@.entries),
    {
        broadcast use lemma_bytes_deep_view, lemma_blobs_deep_view_index;

        let QuizPayload { question, options } = payload;
        if !payload_fits(&question, &options) {
            return None;
        }
        let current = self.ids.get();
        let id = current + 1;
        self.ids.set(id);
        let quiz = Quiz::new(id, question, options, now);
        proof {
            lemma_fits_wf(quiz@);
        }
        self.do_insert(&quiz);
        Some(quiz)
    }

    /// Replaces a stored record's texts wholesale: new prompt, new
    /// labels, every tally back to zero, update time set.  The entry
    /// stays under the identifier the stored record carries.
    pub fn update_quiz(&mut self, id: u64, payload: QuizPayload, now: u64) -> (r: Result<
        Quiz,
        Error,
    >)
        ensures
            ({
                let e = old(self)@.entries;
                &&& (r matches Err(Error::NotFound) <==> !e.contains_key(id))
                &&& (r matches Err(Error::CorruptData) <==> e.contains_key(id) && decode_spec(
                    e[id],
                ) is None)
                &&& (r matches Err(Error::CapacityExceeded) <==> e.contains_key(id) && decode_spec(
                    e[id],
                ) is Some && payload_encoded_len(payload.question@, payload.options.deep_view())
                    > MAX_VALUE_SIZE as int)
                &&& (r is Err ==> final(self)@ == old(self)@)
                &&& (r matches Ok(quiz) ==> e.contains_key(id) && (decode_spec(
                    e[id],
                ) matches Some(q0) && {
                    let q1 = record_updated(
                        q0,
                        payload.question@,
                        payload.options.deep_view(),
                        now,
                    );
                    &&& quiz@ == q1
                    &&& encoded_len(q1) <= MAX_VALUE_SIZE as int
                    &&& final(self)@.entries == e.insert(q0.id, encode_spec(q1))
                    &&& final(self)@.counter == old(self)@.counter
                }))
                &&& (entries_wf(e) ==> entries_wf(final(self)@.entries))
            }),
    {
        broadcast use lemma_bytes_deep_view, lemma_blobs_deep_view_index;

        let bytes = match self.records.get(id) {
            None => {
                return Err(Error::NotFound);
            },
            Some(b) => b,
        };
        let quiz0 = match decode(&bytes) {
            None => {
                return Err(Error::CorruptData);
            },
            Some(q) => q,
        };
        let QuizPayload { question, options } = payload;
        if !payload_fits(&question, &options) {
            return Err(Error::CapacityExceeded);
        }
        let answers = make_zero_counts(options.len());
        let quiz = Quiz {
            id: quiz0.id,
            question,
            options,
            answers,
            created_at: quiz0.created_at,
            updated_at: Some(now),
        };
        proof {
            assert(quiz@ =~~= record_updated(quiz0@, quiz.question@, quiz.options.deep_view(), now));
            lemma_fits_wf(quiz@);
        }
        self.do_insert(&quiz);
        Ok(quiz)
    }

    /// Removes the entry under an identifier and returns the record it
    /// held; a corrupt entry is still removed, but reported.
    pub fn delete_quiz(&mut self, id: u64) -> (r: Result<Quiz, Error>)
        ensures
            ({
                let e = old(self)@.entries;
                &&& (r matches Err(Error::NotFound) <==> !e.contains_key(id))
                &&& (r matches Err(Error::CorruptData) <==> e.contains_key(id) && decode_spec(
                    e[id],
                ) is None)
                &&& (r matches Ok(q) ==> e.contains_key(id) && decode_spec(e[id]) == Some(q@))
                &&& (e.contains_key(id) && decode_spec(e[id]) is Some ==> r is Ok)
                &&& (e.contains_key(id) ==> final(self)@.entries == e.remove(id) && final(self)@.counter == old(self)@.counter)
                &&& (!e.contains_key(id) ==> final(self)@ == old(self)@)
                &&& (entries_wf(e) ==> entries_wf(final(self)@.entries))
            }),
    {
        broadcast use lemma_bytes_deep_view;

        let removed = self.records.remove(id);
        proof {
            if !old(self)@.entries.contains_key(id) {
                assert(old(self)@.entries.remove(id) =~= old(self)@.entries);
                assert(final(self)@ =~= old(self)@);
            }
            if entries_wf(old(self)@.entries) {
                let e0 = old(self)@.entries;
                let e1 = self@.entries;
                assert forall|k: u64| #[trigger] e1.contains_key(k) implies e1[k].len()
                    <= MAX_VALUE_SIZE as int && (decode_spec(e1[k]) matches Some(q) && q.id
                    == k) by {
                    assert(e0.contains_key(k) && e1[k] == e0[k]);
                }
            }
        }
        match removed {
            None => Err(Error::NotFound),
            Some(bytes) => match decode(&bytes) {
                Some(q) => Ok(q),
                None => Err(Error::CorruptData),
            },
        }
    }

    /// Raises the tally of the first label equal to `option` by one and
    /// sets the update time; a label no option carries is reported as
    /// absent and changes nothing.
    pub fn answer_quiz(&mut self, id: u64, option: Vec<u8>, now: u64) -> (r: Result<Quiz, Error>)
        requires
            ({
                let e = old(self)@.entries;
                e.contains_key(id) ==> match decode_spec(e[id]) {
                    Some(q0) => forall|i: int|
                        0 <= i < q0.options.len() && (#[trigger] q0.options[i]) == option@
                            ==> q0.answers[i] < u32::MAX,
                    None => true,
                }
            }),
        ensures
            ({
                let e = old(self)@.entries;
                &&& (r matches Err(Error::NotFound) <==> (!e.contains_key(id) || (decode_spec(
                    e[id],
                ) matches Some(q0) && q0.options.index_of_first(option@) is None)))
                &&& (r matches Err(Error::CorruptData) <==> e.contains_key(id) && decode_spec(
                    e[id],
                ) is None)
                &&& (r matches Err(Error::CapacityExceeded) <==> (e.contains_key(id) && (decode_spec(
                    e[id],
                ) matches Some(q0) && q0.options.index_of_first(option@) is Some && encoded_len(q0)
                    > MAX_VALUE_SIZE as int)))
                &&& (r is Err ==> final(self)@ == old(self)@)
                &&& (r matches Ok(quiz) ==> e.contains_key(id) && (decode_spec(
                    e[id],
                ) matches Some(q0) && (q0.options.index_of_first(option@) matches Some(ix) && {
                    let q1 = record_voted(q0, ix, now);
                    &&& quiz@ == q1
                    &&& encoded_len(q1) <= MAX_VALUE_SIZE as int
                    &&& final(self)@.entries == e.insert(q0.id, encode_spec(q1))
                    &&& final(self)@.counter == old(self)@.counter
                })))
                &&& (entries_wf(e) ==> entries_wf(final(self)@.entries))
            }),
    {
        broadcast use lemma_bytes_deep_view, lemma_blobs_deep_view_index;

        let bytes = match self.records.get(id) {
            None => {
                return Err(Error::NotFound);
            },
            Some(b) => b,
        };
        let mut quiz = match decode(&bytes) {
            None => {
                return Err(Error::CorruptData);
            },
            Some(q) => q,
        };
        proof {
            lemma_decode_wf(bytes@);
        }
        let idx = match find_option(&quiz.options, &option) {
            None => {
                return Err(Error::NotFound);
            },
            Some(i) => i,
        };
        if !payload_fits(&quiz.question, &quiz.options) {
            return Err(Error::CapacityExceeded);
        }
        let ghost q0 = quiz@;
        proof {
            q0.options.index_of_first_ensures(option@);
        }
        let c = quiz.answers[idx];
        let new_answers = {
            let mut a = quiz.answers;
            a.set(idx, c + 1);
            a
        };
        quiz.answers = new_answers;
        quiz.updated_at = Some(now);
        proof {
            assert(quiz@ =~~= record_voted(q0, idx as int, now));
            lemma_fits_wf(quiz@);
        }
        self.do_insert(&quiz);
        Ok(quiz)
    }

    /// Decodes every stored record, in ascending identifier order; an
    /// empty store is reported as having nothing to list.
    pub fn get_all_quiz(&self) -> (r: Result<Vec<Quiz>, Error>)
        ensures
            ({
                let e = self@.entries;
                &&& (r matches Err(Error::NotFound) <==> e.dom() == Set::<u64>::empty())
                &&& (r matches Err(Error::CorruptData) <==> (e.dom() != Set::<u64>::empty()
                    && exists|k: u64| #[trigger] e.contains_key(k) && decode_spec(e[k]) is None))
                &&& (r matches Ok(qs) ==> qs@.len() > 0 && exists|ps: Seq<(u64, Seq<u8>)>|
                    is_ascending_entry_list(ps, e) && qs@.len() == ps.len() && forall|i: int|
                        0 <= i < ps.len() ==> decode_spec((#[trigger] ps[i]).1) == Some(qs@[i]@))
                &&& ((e.dom() != Set::<u64>::empty() && forall|k: u64|
                    #[trigger] e.contains_key(k) ==> decode_spec(e[k]) is Some) ==> r is Ok)
                &&& (entries_wf(e) ==> (r matches Ok(qs) ==> forall|i: int, j: int|
                    0 <= i < j < qs@.len() ==> (#[trigger] qs@[i])@.id < (#[trigger] qs@[j])@.id))
                &&& (entries_wf(e) ==> (r matches Ok(qs) ==> forall|i: int, j: int|
                    0 <= i < qs@.len() && 0 <= j < qs@.len() && i != j ==> (#[trigger] qs@[i])@.id
                        != (#[trigger] qs@[j])@.id))
            }),
    {
        broadcast use lemma_bytes_deep_view;

        let pairs = self.records.entries_vec();
        let ghost pv = pairs_view(pairs@);
        let ghost e = self@.entries;
        let mut out: Vec<Quiz> = Vec::new();
        let mut i: usize = 0;
        while i < pairs.len()
            invariant
                i <= pairs@.len(),
                pv == pairs_view(pairs@),
                e == self@.entries,
                is_ascending_entry_list(pv, e),
                out@.len() == i,
                forall|j: int| 0 <= j < i ==> decode_spec((#[trigger] pv[j]).1) == Some(out@[j]@),
                entries_wf(e) ==> forall|j: int|
                    0 <= j < i ==> (#[trigger] out@[j])@.id == pv[j].0,
            decreases pairs@.len() - i,
        {
            broadcast use lemma_bytes_deep_view;

            let p = &pairs[i];
            match decode(&p.1) {
                Some(q) => {
                    out.push(q);
                    proof {
                        if entries_wf(e) {
                            let k = pv[i as int].0;
                            assert(e.contains_key(k) && e[k] == pv[i as int].1);
                            assert(decode_spec(e[k]) == Some(q@));
                            assert(q@.id == k);
                        }
                    }
                },
                None => {
                    proof {
                        assert(e.contains_key(pv[i as int].0) && decode_spec(
                            e[pv[i as int].0],
                        ) is None);
                        assert(e.dom() != Set::<u64>::empty()) by {
                            assert(e.dom().contains(pv[i as int].0));
                        }
                    }
                    return Err(Error::CorruptData);
                },
            }
            i = i + 1;
        }
        if out.len() == 0 {
            proof {
                assert forall|k: u64| !(#[trigger] e.contains_key(k)) by {
                    if e.contains_key(k) {
                        let w = choose|j: int| 0 <= j < pv.len() && pv[j].0 == k;
                    }
                }
                assert(e.dom() =~= Set::<u64>::empty());
            }
            return Err(Error::NotFound);
        }
        proof {
            assert(e.dom().contains(pv[0].0));
            assert(e.dom() != Set::<u64>::empty());
            if entries_wf(e) {
                assert forall|a: int, b: int| 0 <= a < b < out@.len() implies (#[trigger] out@[a])@.id
                    < (#[trigger] out@[b])@.id by {
                    assert(out@[a]@.id == pv[a].0);
                    assert(out@[b]@.id == pv[b].0);
                    assert(pv[a].0 < pv[b].0);
                }
                assert forall|a: int, b: int|
                    0 <= a < out@.len() && 0 <= b < out@.len() && a != b implies (
                #[trigger] out@[a])@.id != (#[trigger] out@[b])@.id by {
                    if a < b {
                        assert(out@[a]@.id < out@[b]@.id);
                    } else {
                        assert(out@[b]@.id < out@[a]@.id);
                    }
                }
            }
        }
        Ok(out)
    }
}

} // verus!
