//! What is wrong with the layout of a trace, and how it is said.
use vstd::prelude::*;
use vstd::string::*;

verus! {

/// The sizes of a spill that do not fit.
#[derive(Clone, Copy, Debug, PartialEq, Eq, Structural)]
pub enum SpillFault {
    RandomizedWidth,
    TraceStore,
    RandomizedHeight,
    RandomizedStore,
    LdeStore,
    TraceBytes,
    RandomizedBytes,
    LdeBytes,
    RandomizationPeak,
    CommitPeak,
}

/// The proof whose shape is held against the production verifier.
#[derive(Clone, Copy, Debug, PartialEq, Eq, Structural)]
pub enum CheckedShape {
    JoinSplit,
    Aggregate,
}

/// What is wrong with the degree of a proof.
#[derive(Clone, Copy, Debug, PartialEq, Eq, Structural)]
pub enum DegreeFault {
    TooSmall { minimum: usize, got: usize },
    TooLarge { maximum: usize, got: usize },
}

/// What is wrong with the layout of a trace.
#[derive(Clone, Copy, Debug, PartialEq, Eq)]
pub enum LayoutFault {
    /// The size of the named trace does not fit.
    Overflow { what: &'static str },
    /// A size of the spilled trace does not fit.
    Spill(SpillFault),
    HeightNotPowerOfTwo,
    QuotientChunks { of: CheckedShape, log_num_quotient_chunks: usize, log_blowup: usize },
    DegreeBits { of: CheckedShape, fault: DegreeFault },
    QuotientChunkCount,
    PublicInputs,
    SaltLength,
    MissingRounds,
    FoldOverlap,
    TxRoot,
    Serialization,
}

/// A decimal digit.
pub open spec fn digit_z(d: nat) -> char {
    seq!['0', '1', '2', '3', '4', '5', '6', '7', '8', '9'][d as int]
}

/// A number in decimal.
pub open spec fn decimal_z(n: nat) -> Seq<char>
    decreases n,
{
    if n < 10 {
        seq![digit_z(n)]
    } else {
        decimal_z(n / 10).push(digit_z(n % 10))
    }
}

/// A decimal digit as a string.
fn digit(d: usize) -> (r: &'static str)
    requires
        d < 10,
    ensures
        r@ == seq![digit_z(d as nat)],
{
    proof {
        reveal_strlit("0");
        reveal_strlit("1");
        reveal_strlit("2");
        reveal_strlit("3");
        reveal_strlit("4");
        reveal_strlit("5");
        reveal_strlit("6");
        reveal_strlit("7");
        reveal_strlit("8");
        reveal_strlit("9");
    }
    let r: &'static str = match d {
        0 => "0",
        1 => "1",
        2 => "2",
        3 => "3",
        4 => "4",
        5 => "5",
        6 => "6",
        7 => "7",
        8 => "8",
        _ => "9",
    };
    assert(r@ =~= seq![digit_z(d as nat)]);
    r
}

/// Appends a number in decimal.
fn push_decimal(s: &mut String, n: usize)
    ensures
        final(s)@ == old(s)@ + decimal_z(n as nat),
    decreases n,
{
    let ghost before = s@;
    if n >= 10 {
        push_decimal(s, n / 10);
    }
    s.append(digit(n % 10));
    assert(s@ =~= before + decimal_z(n as nat));
}

impl SpillFault {
    pub open spec fn text_z(self) -> Seq<char> {
        match self {
            SpillFault::RandomizedWidth => "production aggregate stream randomized width overflows usize"@,
            SpillFault::TraceStore => "production aggregate trace store overflows usize"@,
            SpillFault::RandomizedHeight => "production aggregate randomized height overflows usize"@,
            SpillFault::RandomizedStore => "production aggregate randomized store overflows usize"@,
            SpillFault::LdeStore => "production aggregate LDE store overflows usize"@,
            SpillFault::TraceBytes => "production aggregate trace store byte estimate overflows usize"@,
            SpillFault::RandomizedBytes => "production aggregate randomized store byte estimate overflows usize"@,
            SpillFault::LdeBytes => "production aggregate LDE store byte estimate overflows usize"@,
            SpillFault::RandomizationPeak => "production aggregate stream randomization peak byte estimate overflows usize"@,
            SpillFault::CommitPeak => "production aggregate stream spill byte estimate overflows usize"@,
        }
    }

    /// What does not fit.
    pub fn text(&self) -> (r: &'static str)
        ensures
            r@ == self.text_z(),
    {
        match self {
            SpillFault::RandomizedWidth => "production aggregate stream randomized width overflows usize",
            SpillFault::TraceStore => "production aggregate trace store overflows usize",
            SpillFault::RandomizedHeight => "production aggregate randomized height overflows usize",
            SpillFault::RandomizedStore => "production aggregate randomized store overflows usize",
            SpillFault::LdeStore => "production aggregate LDE store overflows usize",
            SpillFault::TraceBytes => "production aggregate trace store byte estimate overflows usize",
            SpillFault::RandomizedBytes => "production aggregate randomized store byte estimate overflows usize",
            SpillFault::LdeBytes => "production aggregate LDE store byte estimate overflows usize",
            SpillFault::RandomizationPeak => "production aggregate stream randomization peak byte estimate overflows usize",
            SpillFault::CommitPeak => "production aggregate stream spill byte estimate overflows usize",
        }
    }
}

impl DegreeFault {
    pub open spec fn text_z(self) -> Seq<char> {
        match self {
            DegreeFault::TooSmall { minimum, got } => "DegreeBitsTooSmall { air: None, minimum: "@
                + decimal_z(minimum as nat) + ", got: "@ + decimal_z(got as nat) + " }"@,
            DegreeFault::TooLarge { maximum, got } => "DegreeBitsTooLarge { air: None, maximum: "@
                + decimal_z(maximum as nat) + ", got: "@ + decimal_z(got as nat) + " }"@,
        }
    }

    /// Appends the fault as the verifier's own error is printed.
    fn push_to(&self, s: &mut String)
        ensures
            final(s)@ == old(s)@ + self.text_z(),
    {
        let ghost before = s@;
        match self {
            DegreeFault::TooSmall { minimum, got } => {
                s.append("DegreeBitsTooSmall { air: None, minimum: ");
                push_decimal(s, *minimum);
                s.append(", got: ");
                push_decimal(s, *got);
            },
            DegreeFault::TooLarge { maximum, got } => {
                s.append("DegreeBitsTooLarge { air: None, maximum: ");
                push_decimal(s, *maximum);
                s.append(", got: ");
                push_decimal(s, *got);
            },
        }
        s.append(" }");
        assert(s@ =~= before + self.text_z());
    }
}

impl CheckedShape {
    pub open spec fn name_z(self) -> Seq<char> {
        match self {
            CheckedShape::JoinSplit => "JoinSplit"@,
            CheckedShape::Aggregate => "aggregate"@,
        }
    }

    /// What the shape is called.
    pub fn name(&self) -> (r: &'static str)
        ensures
            r@ == self.name_z(),
    {
        match self {
            CheckedShape::JoinSplit => "JoinSplit",
            CheckedShape::Aggregate => "aggregate",
        }
    }
}

impl LayoutFault {
    pub open spec fn text_z(self) -> Seq<char> {
        match self {
            LayoutFault::Overflow { what } => what@ + " size overflows usize"@,
            LayoutFault::Spill(f) => f.text_z(),
            LayoutFault::HeightNotPowerOfTwo => "aggregate trace height is not a power of two"@,
            LayoutFault::QuotientChunks { of, log_num_quotient_chunks, log_blowup } => of.name_z()
                + " quotient chunks exceed production blowup: log_nqc="@ + decimal_z(
                log_num_quotient_chunks as nat,
            ) + ", log_blowup="@ + decimal_z(log_blowup as nat),
            LayoutFault::DegreeBits { of, fault } => of.name_z()
                + " degree bits invalid for production verifier: "@ + fault.text_z(),
            LayoutFault::QuotientChunkCount => "hiding quotient chunk count exceeds production blowup"@,
            LayoutFault::PublicInputs => "hiding column-window public-input layout mismatch"@,
            LayoutFault::SaltLength => "hiding Merkle salt is not four felts"@,
            LayoutFault::MissingRounds => "hiding proof missing random/trace/quotient input rounds"@,
            LayoutFault::FoldOverlap => "fold blocks overlap query region"@,
            LayoutFault::TxRoot => "tx-root fold did not match batch root oracle"@,
            LayoutFault::Serialization => "aggregate proof serialization failed"@,
        }
    }

    /// What is wrong, in words.
    pub fn text(&self) -> (r: String)
        ensures
            r@ == self.text_z(),
    {
        match self {
            LayoutFault::Overflow { what } => {
                let mut s: String = String::from_str(what);
                s.append(" size overflows usize");
                s
            },
            LayoutFault::Spill(f) => String::from_str(f.text()),
            LayoutFault::HeightNotPowerOfTwo => String::from_str(
                "aggregate trace height is not a power of two",
            ),
            LayoutFault::QuotientChunks { of, log_num_quotient_chunks, log_blowup } => {
                let mut s: String = String::from_str(of.name());
                s.append(" quotient chunks exceed production blowup: log_nqc=");
                push_decimal(&mut s, *log_num_quotient_chunks);
                s.append(", log_blowup=");
                push_decimal(&mut s, *log_blowup);
                s
            },
            LayoutFault::DegreeBits { of, fault } => {
                let mut s: String = String::from_str(of.name());
                s.append(" degree bits invalid for production verifier: ");
                fault.push_to(&mut s);
                s
            },
            LayoutFault::QuotientChunkCount => String::from_str(
                "hiding quotient chunk count exceeds production blowup",
            ),
            LayoutFault::PublicInputs => String::from_str(
                "hiding column-window public-input layout mismatch",
            ),
            LayoutFault::SaltLength => String::from_str("hiding Merkle salt is not four felts"),
            LayoutFault::MissingRounds => String::from_str(
                "hiding proof missing random/trace/quotient input rounds",
            ),
            LayoutFault::FoldOverlap => String::from_str("fold blocks overlap query region"),
            LayoutFault::TxRoot => String::from_str("tx-root fold did not match batch root oracle"),
            LayoutFault::Serialization => String::from_str("aggregate proof serialization failed"),
        }
    }
}

} // verus!
