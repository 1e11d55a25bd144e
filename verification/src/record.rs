use vstd::prelude::*;

verus! {

/// Largest encoded record the ordered map accepts, in bytes.
pub const MAX_VALUE_SIZE: usize = 1024;

/// One poll item: a prompt, its option labels, and one tally per label.
///
/// Text travels as UTF-8 bytes; the storage layer never inspects it.
/// The tally in `answers[i]` belongs to the label in `options[i]`.
#[derive(Clone, PartialEq, Eq, Debug)]
pub struct Quiz {
    pub id: u64,
    pub question: Vec<u8>,
    pub options: Vec<Vec<u8>>,
    pub answers: Vec<u32>,
    pub created_at: u64,
    pub updated_at: Option<u64>,
}

/// The mathematical value of a `Quiz`.
#[verifier::ext_equal]
pub ghost struct QuizView {
    pub id: u64,
    pub question: Seq<u8>,
    pub options: Seq<Seq<u8>>,
    pub answers: Seq<u32>,
    pub created_at: u64,
    pub updated_at: Option<u64>,
}

impl View for Quiz {
    type V = QuizView;

    open spec fn view(&self) -> QuizView {
        QuizView {
            id: self.id,
            question: self.question@,
            options: self.options.deep_view(),
            answers: self.answers@,
            created_at: self.created_at,
            updated_at: self.updated_at,
        }
    }
}

impl QuizView {
    /// A record is well formed when every label has exactly one tally and
    /// every length fits the 32-bit length fields of the encoding.
    pub open spec fn wf(self) -> bool {
        &&& self.answers.len() == self.options.len()
        &&& self.question.len() < 0x1_0000_0000
        &&& self.options.len() < 0x1_0000_0000
        &&& forall|i: int| 0 <= i < self.options.len() ==> self.options[i].len() < 0x1_0000_0000
    }
}

/// A zeroed tally, one counter per option.
pub open spec fn zero_counts(n: nat) -> Seq<u32> {
    Seq::new(n, |i: int| 0u32)
}

/// The record a create request builds: fresh tallies, no update time.
pub open spec fn record_new(id: u64, question: Seq<u8>, options: Seq<Seq<u8>>, now: u64) -> QuizView {
    QuizView {
        id,
        question,
        options,
        answers: zero_counts(options.len()),
        created_at: now,
        updated_at: None,
    }
}

/// What a create or update request carries: a prompt and its option labels.
pub struct QuizPayload {
    pub question: Vec<u8>,
    pub options: Vec<Vec<u8>>,
}

/// The outcomes an operation can report instead of a value.
#[derive(Clone, Copy, PartialEq, Eq, Structural, Debug)]
pub enum Error {
    /// No entry lives under the requested key, or a vote names an absent label.
    NotFound,
    /// Stored bytes are not the encoding of any record.
    CorruptData,
    /// The record's encoding would exceed the map's value-size cap.
    CapacityExceeded,
}

/// A vector of `n` zeroed counters.
pub fn make_zero_counts(n: usize) -> (r: Vec<u32>)
    ensures
        r@ == zero_counts(n as nat),
{
    let mut r: Vec<u32> = Vec::new();
    let mut i: usize = 0;
    while i < n
        invariant
            i <= n,
            r@ == zero_counts(i as nat),
        decreases n - i,
    {
        r.push(0);
        proof {
            assert(r@ =~= zero_counts((i + 1) as nat));
        }
        i = i + 1;
    }
    r
}

impl Quiz {
    /// Builds the record a create request stores: the given identity and
    /// texts, all tallies at zero, and no update time yet.
    pub fn new(id: u64, question: Vec<u8>, options: Vec<Vec<u8>>, created_at: u64) -> (r: Quiz)
        ensures
            r@ == record_new(id, question@, options.deep_view(), created_at),
    {
        let answers = make_zero_counts(options.len());
        let r = Quiz { id, question, options, answers, created_at, updated_at: None };
        proof {
            assert(r@ =~~= record_new(r.id, r.question@, r.options.deep_view(), created_at));
        }
        r
    }
}

} // verus!
