//! A stateful calculator with an operation history, a streaming statistics
//! aggregator, and a set of stateless numeric helpers.
//!
//! Every arithmetic method computes a result and appends an immutable record
//! to the calculator's history; a failed operation leaves the history
//! untouched. Numbers are 64-bit signed integers.

pub mod modules;

use vstd::prelude::*;

use crate::modules::error::ProjectError;
use crate::modules::math::{factorial_spec, lemma_factorial_20, lemma_factorial_monotone};

verus! {

/// The kind of an arithmetic operation recorded in the history.
#[derive(Clone, Copy, Debug, PartialEq, Eq, Structural)]
pub enum OperationType {
    Add,
    Subtract,
    Multiply,
    Divide,
}

impl OperationType {
    /// The display name of the operation kind.
    pub fn label(&self) -> (r: &'static str)
        ensures
            r@ == label_spec(*self),
    {
        match self {
            OperationType::Add => "Addition",
            OperationType::Subtract => "Subtraktion",
            OperationType::Multiply => "Multiplikation",
            OperationType::Divide => "Division",
        }
    }
}

/// The display name of each operation kind.
pub open spec fn label_spec(t: OperationType) -> Seq<char> {
    match t {
        OperationType::Add => "Addition"@,
        OperationType::Subtract => "Subtraktion"@,
        OperationType::Multiply => "Multiplikation"@,
        OperationType::Divide => "Division"@,
    }
}

/// One recorded arithmetic operation: its kind, the operands in order, the
/// computed result, and the seconds-since-epoch time of its creation.
#[derive(Clone, Debug)]
pub struct Operation {
    pub operation_type: OperationType,
    pub operands: Vec<i64>,
    pub result: i64,
    pub timestamp: u64,
}

/// The mathematical content of a recorded operation.
pub ghost struct OperationView {
    pub operation_type: OperationType,
    pub operands: Seq<int>,
    pub result: int,
    pub timestamp: int,
}

impl View for Operation {
    type V = OperationView;

    open spec fn view(&self) -> OperationView {
        OperationView {
            operation_type: self.operation_type,
            operands: self.operands@.map_values(|x: i64| x as int),
            result: self.result as int,
            timestamp: self.timestamp as int,
        }
    }
}

/// A calculator owning an ordered, append-only history of the operations it
/// has successfully executed. Insertion order is chronological order.
#[derive(Clone, Debug)]
pub struct Calculator {
    history: Vec<Operation>,
}

impl View for Calculator {
    type V = Seq<OperationView>;

    closed spec fn view(&self) -> Seq<OperationView> {
        self.history@.map_values(|o: Operation| o@)
    }
}

/// The new history extends the old one by exactly one record with the given
/// kind, operands and result. The record's timestamp is left open: it is
/// whatever the clock read at creation time.
pub open spec fn appends_record(
    h0: Seq<OperationView>,
    h1: Seq<OperationView>,
    kind: OperationType,
    a: int,
    b: int,
    result: int,
) -> bool {
    &&& h1.len() == h0.len() + 1
    &&& h1.drop_last() == h0
    &&& h1.last().operation_type == kind
    &&& h1.last().operands == seq![a, b]
    &&& h1.last().result == result
}

/// Truncating division, the semantics of `/` on Rust's signed integers:
/// the exact quotient rounded toward zero.
pub open spec fn div_trunc(a: int, b: int) -> int {
    if a == 0 {
        0
    } else if a > 0 && b > 0 {
        a / b
    } else if a < 0 && b < 0 {
        (a * -1) / (b * -1)
    } else if a < 0 {
        ((a * -1) / b) * -1
    } else {
        (a / (b * -1)) * -1
    }
}

/// A quotient of nonnegative by positive lies between zero and the dividend.
pub(crate) proof fn lemma_div_bounds(p: int, q: int)
    requires
        p >= 0,
        q >= 1,
    ensures
        0 <= p / q <= p,
{
    vstd::arithmetic::div_mod::lemma_div_pos_is_pos(p, q);
    vstd::arithmetic::div_mod::lemma_div_nonincreasing(p, q);
}

/// Reads the current time as whole seconds since the Unix epoch.
/// Relies on `std::time::SystemTime::now`; a clock before the epoch reads
/// as zero. Nothing is promised of the value: it depends on the clock.
#[verifier::external_body]
fn current_unix_seconds() -> u64 {
    match std::time::SystemTime::now().duration_since(std::time::UNIX_EPOCH) {
        Ok(d) => d.as_secs(),
        Err(_) => 0,
    }
}

impl Calculator {
    /// A calculator with an empty history.
    pub fn new() -> (r: Self)
        ensures
            r@ =~= Seq::<OperationView>::empty(),
    {
        Self { history: Vec::new() }
    }

    /// Appends one record to the history, stamped with the current time.
    fn add_to_history(&mut self, op_type: OperationType, a: i64, b: i64, result: i64)
        ensures
            appends_record(old(self)@, final(self)@, op_type, a as int, b as int, result as int),
    {
        let timestamp = current_unix_seconds();
        let operands = vec![a, b];
        let operation = Operation { operation_type: op_type, operands, result, timestamp };
        proof {
            assert(operation@.operands =~= seq![a as int, b as int]);
        }
        self.history.push(operation);
        proof {
            assert(self@.drop_last() =~= old(self)@);
        }
    }

    /// Adds two numbers and records the operation.
    pub fn add(&mut self, a: i64, b: i64) -> (r: i64)
        requires
            i64::MIN <= a + b <= i64::MAX,
        ensures
            r == a + b,
            appends_record(old(self)@, final(self)@, OperationType::Add, a as int, b as int, r as int),
    {
        let result = a + b;
        self.add_to_history(OperationType::Add, a, b, result);
        result
    }

    /// Subtracts the second number from the first and records the operation.
    pub fn subtract(&mut self, a: i64, b: i64) -> (r: i64)
        requires
            i64::MIN <= a - b <= i64::MAX,
        ensures
            r == a - b,
            appends_record(
                old(self)@,
                final(self)@,
                OperationType::Subtract,
                a as int,
                b as int,
                r as int,
            ),
    {
        let result = a - b;
        self.add_to_history(OperationType::Subtract, a, b, result);
        result
    }

    /// Multiplies two numbers and records the operation.
    pub fn multiply(&mut self, a: i64, b: i64) -> (r: i64)
        requires
            i64::MIN <= a * b <= i64::MAX,
        ensures
            r == a * b,
            appends_record(
                old(self)@,
                final(self)@,
                OperationType::Multiply,
                a as int,
                b as int,
                r as int,
            ),
    {
        let result = a * b;
        self.add_to_history(OperationType::Multiply, a, b, result);
        result
    }

    /// Divides the first number by the second and records the operation.
    /// Division by zero fails and leaves the history untouched.
    pub fn divide(&mut self, a: i64, b: i64) -> (r: Result<i64, ProjectError>)
        requires
            !(a == i64::MIN && b == -1),
        ensures
            b == 0 ==> (r matches Err(e) && e matches ProjectError::DivisionByZero
                && final(self)@ == old(self)@),
            b != 0 ==> (r matches Ok(v) && v == div_trunc(a as int, b as int)
                && appends_record(
                old(self)@,
                final(self)@,
                OperationType::Divide,
                a as int,
                b as int,
                v as int,
            )),
    {
        if b == 0 {
            return Err(ProjectError::DivisionByZero);
        }
        proof {
            let x = a as int;
            let d = b as int;
            if x > 0 && d > 0 {
                lemma_div_bounds(x, d);
            } else if x < 0 && d < 0 {
                lemma_div_bounds(x * -1, d * -1);
                if d <= -2 {
                    vstd::arithmetic::div_mod::lemma_div_is_ordered_by_denominator(
                        x * -1,
                        2,
                        d * -1,
                    );
                }
            } else if x < 0 {
                lemma_div_bounds(x * -1, d);
            } else if x > 0 {
                lemma_div_bounds(x, d * -1);
            }
        }
        let result = match a.checked_div(b) {
            Some(q) => q,
            None => {
                // Unreachable: the divisor is nonzero and the one overflowing
                // pair of operands is excluded by the precondition.
                proof {
                    assert(false);
                }
                return Err(ProjectError::DivisionByZero);
            },
        };
        self.add_to_history(OperationType::Divide, a, b, result);
        Ok(result)
    }

    /// The factorial of `n`, computed by a running product. Inputs above 20
    /// overflow a `u64` and are rejected; the history is never touched.
    pub fn factorial(&self, n: u64) -> (r: Result<u64, ProjectError>)
        ensures
            n <= 20 ==> (r matches Ok(v) && v == factorial_spec(n as nat)),
            n > 20 ==> (r matches Err(e) && e matches ProjectError::OverflowError(m)
                && m@ == "Factorial too large"@),
    {
        if n > 20 {
            return Err(ProjectError::OverflowError(String::from_str("Factorial too large")));
        }
        let mut result: u64 = 1;
        let mut i: u64 = 1;
        while i <= n
            invariant
                1 <= i <= n + 1,
                n <= 20,
                result == factorial_spec((i - 1) as nat),
            decreases n + 1 - i,
        {
            proof {
                lemma_factorial_monotone(i as nat, 20);
                lemma_factorial_20();
                assert(factorial_spec(i as nat) == i * factorial_spec((i - 1) as nat));
                assert(result * i == factorial_spec(i as nat)) by (nonlinear_arith)
                    requires
                        result == factorial_spec((i - 1) as nat),
                        factorial_spec(i as nat) == i * factorial_spec((i - 1) as nat),
                ;
            }
            result = result * i;
            i += 1;
        }
        Ok(result)
    }

    /// The number of recorded operations.
    pub fn history_count(&self) -> (r: usize)
        ensures
            r == self@.len(),
    {
        self.history.len()
    }

    /// A read-only view of the full history, in insertion order.
    pub fn get_history(&self) -> (r: &[Operation])
        ensures
            r@.map_values(|o: Operation| o@) == self@,
    {
        self.history.as_slice()
    }

    /// Empties the history. Nothing else is reset; there is no other state.
    pub fn clear_history(&mut self)
        ensures
            final(self)@ =~= Seq::<OperationView>::empty(),
    {
        self.history.clear();
    }
}

impl Default for Calculator {
    fn default() -> (r: Self)
        ensures
            r@ =~= Seq::<OperationView>::empty(),
    {
        Self::new()
    }
}

/// The word that stands for each operation kind in the serialized form.
pub open spec fn tag_of(t: OperationType) -> u64 {
    match t {
        OperationType::Add => 0u64,
        OperationType::Subtract => 1u64,
        OperationType::Multiply => 2u64,
        OperationType::Divide => 3u64,
    }
}

/// The operation kind a tag word stands for, if any.
pub open spec fn kind_of_tag(w: u64) -> Option<OperationType> {
    if w == 0 {
        Some(OperationType::Add)
    } else if w == 1 {
        Some(OperationType::Subtract)
    } else if w == 2 {
        Some(OperationType::Multiply)
    } else if w == 3 {
        Some(OperationType::Divide)
    } else {
        None
    }
}

/// A record is encodable: its numbers fit the 64-bit types they came from.
pub open spec fn wf_record(o: OperationView) -> bool {
    &&& forall|j: int| 0 <= j < o.operands.len() ==> i64::MIN <= #[trigger] o.operands[j]
        <= i64::MAX
    &&& i64::MIN <= o.result <= i64::MAX
    &&& 0 <= o.timestamp <= u64::MAX
    &&& o.operands.len() <= u64::MAX
}

/// Every record a calculator ever holds is encodable.
pub open spec fn wf_history(h: Seq<OperationView>) -> bool {
    forall|i: int| 0 <= i < h.len() ==> wf_record(#[trigger] h[i])
}

/// The serialized form of one record: its kind tag, the number of operands,
/// the operands, the result, and the timestamp, one word each.
pub open spec fn record_words(o: OperationView) -> Seq<u64> {
    seq![tag_of(o.operation_type), o.operands.len() as u64]
        + o.operands.map_values(|x: int| (x as i64) as u64) + seq![
        (o.result as i64) as u64,
        o.timestamp as u64,
    ]
}

/// The serialized form of a history: each record's words in order.
pub open spec fn history_words(h: Seq<OperationView>) -> Seq<u64>
    decreases h.len(),
{
    if h.len() == 0 {
        Seq::empty()
    } else {
        record_words(h.first()) + history_words(h.drop_first())
    }
}

/// The serialized form of a whole calculator: the record count, then the
/// records.
pub open spec fn calculator_words(h: Seq<OperationView>) -> Seq<u64> {
    seq![h.len() as u64] + history_words(h)
}

/// Reads one record off the front of a word sequence: the record and the
/// remaining words, or nothing if the words do not start with a record.
pub open spec fn parse_record(words: Seq<u64>) -> Option<(OperationView, Seq<u64>)> {
    if words.len() < 2 {
        None
    } else {
        let m = words[1] as int;
        if kind_of_tag(words[0]) is None {
            None
        } else if words.len() < 4 + m {
            None
        } else {
            Some(
                (
                    OperationView {
                        operation_type: kind_of_tag(words[0])->Some_0,
                        operands: words.subrange(2, 2 + m).map_values(
                            |w: u64| (w as i64) as int,
                        ),
                        result: (words[2 + m] as i64) as int,
                        timestamp: words[3 + m] as int,
                    },
                    words.skip(4 + m),
                ),
            )
        }
    }
}

/// Reads `n` records off the front of a word sequence.
pub open spec fn parse_records(words: Seq<u64>, n: nat) -> Option<
    (Seq<OperationView>, Seq<u64>),
>
    decreases n,
{
    if n == 0 {
        Some((Seq::empty(), words))
    } else {
        match parse_record(words) {
            None => None,
            Some((o, rest)) => match parse_records(rest, (n - 1) as nat) {
                None => None,
                Some((os, rest2)) => Some((seq![o] + os, rest2)),
            },
        }
    }
}

/// Reads a whole calculator history: the count word, then exactly that many
/// records and nothing else.
pub open spec fn parse_calculator(words: Seq<u64>) -> Option<Seq<OperationView>> {
    if words.len() < 1 {
        None
    } else {
        match parse_records(words.drop_first(), words[0] as nat) {
            None => None,
            Some((os, rest)) => if rest.len() == 0 {
                Some(os)
            } else {
                None
            },
        }
    }
}

/// Casting a 64-bit number to a word and back returns the number.
proof fn lemma_word_roundtrip(y: i64)
    ensures
        (y as u64) as i64 == y,
{
    assert((y as u64) as i64 == y) by (bit_vector);
}

/// A record's words parse back to exactly that record, whatever follows.
proof fn lemma_parse_record_roundtrip(o: OperationView, tail: Seq<u64>)
    requires
        wf_record(o),
    ensures
        parse_record(record_words(o) + tail) == Some((o, tail)),
{
    let words = record_words(o) + tail;
    let m = o.operands.len() as int;
    assert(words[0] == tag_of(o.operation_type));
    assert(words[1] == m as u64);
    assert(kind_of_tag(tag_of(o.operation_type)) == Some(o.operation_type));
    assert(words.subrange(2, 2 + m) =~= o.operands.map_values(|x: int| (x as i64) as u64));
    let decoded = words.subrange(2, 2 + m).map_values(|w: u64| (w as i64) as int);
    assert(decoded =~= o.operands) by {
        assert forall|j: int| 0 <= j < m implies decoded[j] == o.operands[j] by {
            lemma_word_roundtrip(o.operands[j] as i64);
        }
    }
    assert(words[2 + m] == (o.result as i64) as u64);
    assert((words[2 + m] as i64) as int == o.result) by {
        lemma_word_roundtrip(o.result as i64);
    }
    assert(words[3 + m] == o.timestamp as u64);
    assert(words.skip(4 + m) =~= tail);
}

/// A history's words followed by anything parse back to that history and
/// what followed.
proof fn lemma_parse_records_roundtrip(h: Seq<OperationView>, tail: Seq<u64>)
    requires
        wf_history(h),
    ensures
        parse_records(history_words(h) + tail, h.len()) == Some((h, tail)),
    decreases h.len(),
{
    if h.len() == 0 {
        assert(history_words(h) + tail =~= tail);
    } else {
        let o = h.first();
        let rest_h = h.drop_first();
        assert(history_words(h) + tail =~= record_words(o) + (history_words(rest_h) + tail));
        lemma_parse_record_roundtrip(o, history_words(rest_h) + tail);
        assert(wf_history(rest_h));
        lemma_parse_records_roundtrip(rest_h, tail);
        assert(seq![o] + rest_h =~= h);
    }
}

/// Serialization round-trips: the words of any calculator history parse
/// back to exactly that history, record for record.
pub proof fn lemma_serialization_roundtrip(h: Seq<OperationView>)
    requires
        wf_history(h),
        h.len() <= u64::MAX,
    ensures
        parse_calculator(calculator_words(h)) == Some(h),
{
    let words = calculator_words(h);
    assert(words[0] == h.len() as u64);
    assert(words.drop_first() =~= history_words(h));
    lemma_parse_records_roundtrip(h, Seq::empty());
    assert(history_words(h) + Seq::<u64>::empty() =~= history_words(h));
}

impl Calculator {
    /// Every record this calculator holds is encodable.
    pub proof fn lemma_history_wf(&self)
        ensures
            wf_history(self@),
            self@.len() <= u64::MAX,
    {
        vstd::std_specs::vec::axiom_spec_len(&self.history);
        assert forall|i: int| 0 <= i < self@.len() implies wf_record(#[trigger] self@[i]) by {
            let o = self.history@[i];
            assert(self@[i] == o@);
            vstd::std_specs::vec::axiom_spec_len(&o.operands);
            assert forall|j: int| 0 <= j < o@.operands.len() implies i64::MIN
                <= #[trigger] o@.operands[j] <= i64::MAX by {
                assert(o@.operands[j] == o.operands@[j] as int);
            }
        }
    }

    /// The serialized form of this calculator: one word for the record
    /// count, then each record's kind, operand count, operands, result and
    /// timestamp, one word each.
    pub fn serialize(&self) -> (r: Vec<u64>)
        ensures
            r@ == calculator_words(self@),
    {
        proof {
            self.lemma_history_wf();
        }
        let mut out: Vec<u64> = Vec::new();
        out.push(self.history.len() as u64);
        let n = self.history.len();
        let mut i: usize = 0;
        while i < n
            invariant
                n == self.history@.len(),
                0 <= i <= n,
                out@ == seq![n as u64] + history_words(self@.take(i as int)),
                wf_history(self@),
                self@.len() == n,
            decreases n - i,
        {
            let ghost prefix = self@.take(i as int);
            push_record_words(&mut out, &self.history[i]);
            proof {
                assert(self.history[i as int]@ == self@[i as int]);
                lemma_history_words_snoc(prefix, self@[i as int]);
                assert(self@.take(i as int + 1) =~= prefix.push(self@[i as int]));
            }
            i += 1;
        }
        proof {
            assert(self@.take(n as int) =~= self@);
        }
        out
    }

    /// Rebuilds a calculator from its serialized form. Words that are not
    /// the exact serialization of a history are rejected.
    pub fn deserialize(words: &Vec<u64>) -> (r: Option<Calculator>)
        ensures
            match r {
                Some(c) => parse_calculator(words@) == Some(c@),
                None => parse_calculator(words@) is None,
            },
    {
        proof {
            vstd::std_specs::vec::axiom_spec_len(words);
        }
        if words.len() == 0 {
            return None;
        }
        let n = words[0];
        let mut history: Vec<Operation> = Vec::new();
        let mut pos: usize = 1;
        let mut k: u64 = 0;
        while k < n
            invariant
                words@.len() <= usize::MAX,
                0 < pos <= words@.len(),
                n == words@[0],
                k <= n,
                history@.len() == k,
                parse_records(words@.drop_first(), n as nat) == (match parse_records(
                    words@.skip(pos as int),
                    (n - k) as nat,
                ) {
                    None => None::<(Seq<OperationView>, Seq<u64>)>,
                    Some((os, rest)) => Some(
                        (history@.map_values(|o: Operation| o@) + os, rest),
                    ),
                }),
            decreases n - k,
        {
            let remaining = words.len() - pos;
            if remaining < 2 {
                proof {
                    let ws = words@.skip(pos as int);
                    assert(ws.len() == remaining);
                    assert(parse_record(ws) is None);
                    assert(parse_records(ws, (n - k) as nat) is None);
                    assert(parse_records(words@.drop_first(), n as nat) is None);
                    assert(words@.len() >= 1);
                    assert(words@[0] == n);
                    assert(parse_calculator(words@) is None);
                }
                return None;
            }
            let tag = words[pos];
            let m64 = words[pos + 1];
            if tag > 3 {
                proof {
                    let ws = words@.skip(pos as int);
                    assert(ws.len() == remaining);
                    assert(ws[0] == tag);
                    assert(kind_of_tag(ws[0]) is None);
                    assert(parse_record(ws) is None);
                    assert(parse_records(ws, (n - k) as nat) is None);
                    assert(parse_records(words@.drop_first(), n as nat) is None);
                    assert(words@.len() >= 1);
                    assert(words@[0] == n);
                    assert(parse_calculator(words@) is None);
                }
                return None;
            }
            if remaining < 4 || m64 > (remaining as u64) - 4 {
                proof {
                    let ws = words@.skip(pos as int);
                    assert(ws.len() == remaining);
                    assert(ws[1] == m64);
                    assert(ws.len() < 4 + (ws[1] as int));
                    assert(parse_record(ws) is None);
                    assert(parse_records(ws, (n - k) as nat) is None);
                    assert(parse_records(words@.drop_first(), n as nat) is None);
                    assert(words@.len() >= 1);
                    assert(words@[0] == n);
                    assert(parse_calculator(words@) is None);
                }
                return None;
            }
            let m = m64 as usize;
            let kind = if tag == 0 {
                OperationType::Add
            } else if tag == 1 {
                OperationType::Subtract
            } else if tag == 2 {
                OperationType::Multiply
            } else {
                OperationType::Divide
            };
            let mut operands: Vec<i64> = Vec::new();
            let mut j: usize = 0;
            while j < m
                invariant
                    words@.len() <= usize::MAX,
                    0 <= j <= m,
                    pos + 2 + m <= words@.len() - 2,
                    operands@.len() == j,
                    forall|l: int| 0 <= l < j ==> #[trigger] operands@[l] == (words@[pos + 2 + l]
                        as i64),
                decreases m - j,
            {
                operands.push(words[pos + 2 + j] as i64);
                j += 1;
            }
            let result = words[pos + 2 + m] as i64;
            let timestamp = words[pos + 3 + m];
            let op = Operation { operation_type: kind, operands, result, timestamp };
            proof {
                let ws = words@.skip(pos as int);
                assert(ws[0] == tag && ws[1] == m64);
                assert(ws.len() == words@.len() - pos);
                assert(ws.subrange(2, 2 + m as int) =~= words@.subrange(
                    pos + 2,
                    pos + 2 + m as int,
                ));
                assert(ws[2 + m as int] == words@[pos + 2 + m as int]);
                assert(ws[3 + m as int] == words@[pos + 3 + m as int]);
                assert(kind_of_tag(ws[0]) == Some(kind));
                let decoded = ws.subrange(2, 2 + m as int).map_values(|w: u64| (w as i64) as int);
                assert(op@.operands.len() == m && decoded.len() == m);
                assert forall|l: int| 0 <= l < m implies op@.operands[l] == decoded[l] by {
                    assert(op@.operands[l] == op.operands@[l] as int);
                    assert(op.operands@[l] == (words@[pos + 2 + l] as i64));
                    assert(ws.subrange(2, 2 + m as int)[l] == words@[pos + 2 + l]);
                }
                assert(op@.operands =~= decoded);
                assert(op@.result == (ws[2 + m as int] as i64) as int);
                assert(op@.timestamp == ws[3 + m as int] as int);
                assert(parse_record(ws) == Some((op@, ws.skip(4 + m as int))));
                assert(ws.skip(4 + m as int) =~= words@.skip(pos as int + 4 + m as int));
            }
            let ghost old_hist = history@.map_values(|o: Operation| o@);
            history.push(op);
            pos = pos + 4 + m;
            k += 1;
            proof {
                let new_hist = history@.map_values(|o: Operation| o@);
                assert(new_hist =~= old_hist.push(op@));
                let wp = words@.skip(pos as int);
                // One parsing step: the record just read, then the rest.
                if parse_records(wp, (n - k) as nat) is Some {
                    let (os, rest) = parse_records(wp, (n - k) as nat)->Some_0;
                    assert(parse_records(words@.skip(pos as int - 4 - m), (n - k + 1) as nat)
                        == Some((seq![op@] + os, rest)));
                    assert(old_hist + (seq![op@] + os) =~= new_hist + os);
                } else {
                    assert(parse_records(words@.skip(pos as int - 4 - m), (n - k + 1) as nat)
                        is None);
                }
            }
        }
        if pos != words.len() {
            proof {
                let wp = words@.skip(pos as int);
                assert(parse_records(wp, 0) == Some((Seq::<OperationView>::empty(), wp)));
                assert(history@.map_values(|o: Operation| o@) + Seq::<OperationView>::empty()
                    =~= history@.map_values(|o: Operation| o@));
                assert(wp.len() > 0);
            }
            return None;
        }
        let c = Calculator { history };
        proof {
            let wp = words@.skip(pos as int);
            assert(wp.len() == 0);
            assert(parse_records(wp, 0) == Some((Seq::<OperationView>::empty(), wp)));
            assert(history@.map_values(|o: Operation| o@) + Seq::<OperationView>::empty()
                =~= history@.map_values(|o: Operation| o@));
            assert(c@ == history@.map_values(|o: Operation| o@));
        }
        Some(c)
    }
}

/// One more record's words at the end of a history's words.
proof fn lemma_history_words_snoc(h: Seq<OperationView>, o: OperationView)
    ensures
        history_words(h.push(o)) =~= history_words(h) + record_words(o),
    decreases h.len(),
{
    if h.len() == 0 {
        let p = h.push(o);
        assert(p.first() == o);
        assert(p.drop_first() =~= Seq::<OperationView>::empty());
        assert(p.drop_first().len() == 0);
        assert(history_words(p.drop_first()) == Seq::<u64>::empty());
        assert(history_words(p) == record_words(o) + history_words(p.drop_first()));
        assert(record_words(o) + Seq::<u64>::empty() =~= record_words(o));
        assert(history_words(h).len() == 0);
        assert(history_words(h) + record_words(o) =~= record_words(o));
    } else {
        assert(h.push(o).first() == h.first());
        assert(h.push(o).drop_first() =~= h.drop_first().push(o));
        lemma_history_words_snoc(h.drop_first(), o);
        assert(record_words(h.first()) + (history_words(h.drop_first()) + record_words(o))
            =~= (record_words(h.first()) + history_words(h.drop_first())) + record_words(o));
    }
}

/// Appends one record's serialized words.
fn push_record_words(out: &mut Vec<u64>, op: &Operation)
    requires
        wf_record(op@),
    ensures
        final(out)@ == old(out)@ + record_words(op@),
{
    let tag: u64 = match op.operation_type {
        OperationType::Add => 0,
        OperationType::Subtract => 1,
        OperationType::Multiply => 2,
        OperationType::Divide => 3,
    };
    out.push(tag);
    out.push(op.operands.len() as u64);
    let m = op.operands.len();
    let mut j: usize = 0;
    while j < m
        invariant
            m == op.operands@.len(),
            0 <= j <= m,
            out@ =~= old(out)@ + seq![tag_of(op@.operation_type), m as u64] + op@.operands.take(
                j as int,
            ).map_values(|x: int| (x as i64) as u64),
        decreases m - j,
    {
        out.push(op.operands[j]as u64);
        proof {
            assert(op@.operands[j as int] == op.operands@[j as int] as int);
            assert(op@.operands.take(j as int + 1).drop_last() =~= op@.operands.take(j as int));
            assert(op@.operands.take(j as int + 1).map_values(|x: int| (x as i64) as u64)
                =~= op@.operands.take(j as int).map_values(|x: int| (x as i64) as u64).push(
                (op@.operands[j as int] as i64) as u64,
            ));
        }
        j += 1;
    }
    out.push(op.result as u64);
    out.push(op.timestamp);
    proof {
        assert(op@.operands.take(m as int) =~= op@.operands);
        assert(final(out)@ =~= old(out)@ + record_words(op@));
    }
}

/// Clearing the history always brings the count to zero, whatever was
/// recorded before: the cleared history is the empty one, and the count is
/// its length.
pub proof fn lemma_clear_then_count(cleared: Seq<OperationView>)
    requires
        cleared == Seq::<OperationView>::empty(),
    ensures
        cleared.len() == 0,
{
}

/// Addition commutes: adding `a` and `b` returns the very value that adding
/// `b` and `a` returns, and either call grows its history by exactly one
/// record.
pub proof fn lemma_add_commutative(
    h1: Seq<OperationView>,
    h1_after: Seq<OperationView>,
    h2: Seq<OperationView>,
    h2_after: Seq<OperationView>,
    a: int,
    b: int,
    r1: int,
    r2: int,
)
    requires
        r1 == a + b,
        r2 == b + a,
        appends_record(h1, h1_after, OperationType::Add, a, b, r1),
        appends_record(h2, h2_after, OperationType::Add, b, a, r2),
    ensures
        r1 == r2,
        h1_after.len() == h1.len() + 1,
        h2_after.len() == h2.len() + 1,
{
}

} // verus!
