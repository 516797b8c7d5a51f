//! What a prover is handed, what a verifier checks a proof against, and how either fails.
use vstd::prelude::*;
use vstd::string::*;

use crate::bytes;
use crate::bytes::read_le;
use crate::mayo::api;
use crate::mayo::api::{
    compute_c_from_digest, pk_id_from_lanes, shake256_32, Commitment, PkId, Proof, ProofBundle,
    SignedMessage,
};
use crate::mayo::lanes;
use crate::mayo::lanes::{expand_pk_to_lanes, PkLanes};
use crate::text;
use crate::text::Describe;

verus! {

/// Log of the inverse Reed-Solomon rate of the proof system.
pub const LOG_INV_RATE: usize = 3;

/// Why a circuit's values cannot hold the public input.
#[derive(Clone, Copy, Debug)]
pub enum LayoutDetail {
    /// The values after the public input start inside it.
    InoutOverlapsWitness,
    /// The constants run into the public input.
    ConstantsOverlapInout,
}

/// Circuit whose values cannot hold the public input.
#[derive(Clone, Copy, Debug)]
pub struct LayoutError {
    /// Start of the public input.
    pub offset_inout: usize,
    /// Start of the values after it.
    pub offset_witness: usize,
    /// Number of constants.
    pub constants_len: usize,
    /// What is wrong.
    pub detail: LayoutDetail,
}

impl Describe for LayoutDetail {
    open spec fn text(&self) -> Seq<char> {
        match self {
            LayoutDetail::InoutOverlapsWitness =>
                "offset_witness must be >= offset_inout + 8 for c/pk_id slots"@,
            LayoutDetail::ConstantsOverlapInout =>
                "constants must fit in the [0, offset_inout) prefix"@,
        }
    }

    fn describe(&self) -> (text: String) {
        match self {
            LayoutDetail::InoutOverlapsWitness => String::from_str(
                "offset_witness must be >= offset_inout + 8 for c/pk_id slots",
            ),
            LayoutDetail::ConstantsOverlapInout => String::from_str(
                "constants must fit in the [0, offset_inout) prefix",
            ),
        }
    }
}

impl Describe for LayoutError {
    open spec fn text(&self) -> Seq<char> {
        "binius value-vec layout invariant violated ("@ + self.detail.text() + "): offset_inout="@
            + text::decimal(self.offset_inout as nat) + ", offset_witness="@ + text::decimal(
            self.offset_witness as nat,
        ) + ", constants.len()="@ + text::decimal(self.constants_len as nat)
    }

    fn describe(&self) -> (text: String) {
        let mut out = String::from_str("binius value-vec layout invariant violated (");
        out.append(self.detail.describe().as_str());
        out.append("): offset_inout=");
        text::push_decimal(&mut out, self.offset_inout as u64);
        out.append(", offset_witness=");
        text::push_decimal(&mut out, self.offset_witness as u64);
        out.append(", constants.len()=");
        text::push_decimal(&mut out, self.constants_len as u64);
        out
    }
}

/// What a panic of the proof system carried.
pub enum PanicPayload {
    /// A message.
    Message(String),
    /// Something that is not a string.
    Other,
}

/// What made setup, proving or verifying fail.
#[derive(Debug)]
pub enum Cause {
    /// The circuit cannot hold the public input.
    Layout(LayoutError),
    /// The proof system panicked.
    Panic(String),
    /// The proof system reported an error.
    Backend(String),
}

impl Describe for Cause {
    open spec fn text(&self) -> Seq<char> {
        match self {
            Cause::Layout(error) => error.text(),
            Cause::Panic(message) => "binius backend panicked: "@ + message@,
            Cause::Backend(message) => message@,
        }
    }

    fn describe(&self) -> (text: String) {
        match self {
            Cause::Layout(error) => error.describe(),
            Cause::Panic(message) => {
                let mut out = String::from_str("binius backend panicked: ");
                out.append(message.as_str());
                out
            },
            Cause::Backend(message) => {
                let mut out = String::from_str("");
                proof {
                    reveal_strlit("");
                }
                out.append(message.as_str());
                assert(out@ =~= message@);
                out
            },
        }
    }
}

/// Library-level error.
#[derive(Debug)]
pub enum Error {
    /// The circuit or its keys could not be set up.
    Setup(Cause),
    /// No proof could be made. What the proof system reports may depend on the signature: keep
    /// it out of logs where signatures are secret.
    Prove(Cause),
    /// The proof was not accepted.
    Verify(Cause),
}

impl Describe for Error {
    open spec fn text(&self) -> Seq<char> {
        match self {
            Error::Setup(cause) => "setup error: "@ + cause.text(),
            Error::Prove(cause) => "prove error: "@ + cause.text(),
            Error::Verify(cause) => "verify error: "@ + cause.text(),
        }
    }

    fn describe(&self) -> (text: String) {
        let (mut out, cause) = match self {
            Error::Setup(cause) => (String::from_str("setup error: "), cause),
            Error::Prove(cause) => (String::from_str("prove error: "), cause),
            Error::Verify(cause) => (String::from_str("verify error: "), cause),
        };
        out.append(cause.describe().as_str());
        out
    }
}

impl Error {
    /// What made the operation fail.
    pub fn source(&self) -> (cause: &Cause)
        ensures
            match self {
                Error::Setup(inner) => cause == inner,
                Error::Prove(inner) => cause == inner,
                Error::Verify(inner) => cause == inner,
            },
    {
        match self {
            Error::Setup(cause) => cause,
            Error::Prove(cause) => cause,
            Error::Verify(cause) => cause,
        }
    }

    /// Failed verification for a panic that was caught while verifying.
    pub fn from_caught_panic(payload: PanicPayload) -> (error: Self)
        ensures
            match error {
                Error::Verify(Cause::Panic(message)) => message@ == (match payload {
                    PanicPayload::Message(carried) => carried@,
                    PanicPayload::Other => "non-string panic payload"@,
                }),
                _ => false,
            },
    {
        let message = match payload {
            PanicPayload::Message(message) => message,
            PanicPayload::Other => String::from_str("non-string panic payload"),
        };
        Error::Verify(Cause::Panic(message))
    }
}

/// Where a compiled circuit keeps its constants and its public input.
pub struct PublicLayout {
    /// Constants, at the start of the values.
    pub constants: Vec<u64>,
    /// Start of the public input.
    pub offset_inout: usize,
    /// Start of the values after the public input.
    pub offset_witness: usize,
}

/// Why a circuit's values cannot hold the public input, if they cannot.
pub open spec fn layout_error(
    constants_len: int,
    offset_inout: int,
    offset_witness: int,
) -> Option<LayoutDetail> {
    if offset_witness < offset_inout + 8 {
        Some(LayoutDetail::InoutOverlapsWitness)
    } else if constants_len > offset_inout {
        Some(LayoutDetail::ConstantsOverlapInout)
    } else {
        None
    }
}

/// Word `i` of 32 bytes, least significant byte first.
pub open spec fn word_of(bytes: Seq<u8>, i: int) -> u64 {
    bytes::le_value(bytes.subrange(8 * i, 8 * i + 8)) as u64
}

/// The values that a proof for `c` and `pk_id` is checked against: constants, `c`, `pk_id`, and
/// zeros around them.
pub open spec fn public_input_of(layout: &PublicLayout, c: Seq<u8>, pk_id: Seq<u8>) -> Seq<u64> {
    Seq::new(
        layout.offset_witness as nat,
        |i: int|
            {
                let at = i - layout.offset_inout;
                if 0 <= at < 4 {
                    word_of(c, at)
                } else if 4 <= at < 8 {
                    word_of(pk_id, at - 4)
                } else if i < layout.constants@.len() {
                    layout.constants@[i]
                } else {
                    0
                }
            },
    )
}

impl PublicLayout {
    /// The values hold the constants and the public input.
    pub open spec fn wf(&self) -> bool {
        layout_error(
            self.constants@.len() as int,
            self.offset_inout as int,
            self.offset_witness as int,
        ) is None
    }

    /// Layout of a compiled circuit, if its values can hold the public input.
    pub fn new(constants: Vec<u64>, offset_inout: usize, offset_witness: usize) -> (layout: Result<
        Self,
        Error,
    >)
        requires
            offset_inout + 8 <= usize::MAX,
        ensures
            match layout {
                Ok(layout) => layout.wf() && layout == (PublicLayout {
                    constants,
                    offset_inout,
                    offset_witness,
                }),
                Err(error) => match layout_error(
                    constants@.len() as int,
                    offset_inout as int,
                    offset_witness as int,
                ) {
                    Some(detail) => error == Error::Setup(
                        Cause::Layout(
                            LayoutError {
                                offset_inout,
                                offset_witness,
                                constants_len: constants@.len() as usize,
                                detail,
                            },
                        ),
                    ),
                    None => false,
                },
            },
            layout is Ok <==> constants@.len() <= offset_inout && offset_inout + 8
                <= offset_witness,
    {
        let constants_len: usize = constants.len();
        if offset_witness < offset_inout + 8 {
            return Err(
                Error::Setup(
                    Cause::Layout(
                        LayoutError {
                            offset_inout,
                            offset_witness,
                            constants_len,
                            detail: LayoutDetail::InoutOverlapsWitness,
                        },
                    ),
                ),
            );
        }
        if constants_len > offset_inout {
            return Err(
                Error::Setup(
                    Cause::Layout(
                        LayoutError {
                            offset_inout,
                            offset_witness,
                            constants_len,
                            detail: LayoutDetail::ConstantsOverlapInout,
                        },
                    ),
                ),
            );
        }
        Ok(PublicLayout { constants, offset_inout, offset_witness })
    }

    /// The values that a proof for `c` and `pk_id` is checked against.
    pub fn public_input(&self, c: &Commitment, pk_id: &PkId) -> (public: Vec<u64>)
        requires
            self.wf(),
        ensures
            public@ == public_input_of(self, c.0@, pk_id.0@),
    {
        let mut public: Vec<u64> = Vec::new();
        let mut i: usize = 0;
        while i < self.offset_witness
            invariant
                self.wf(),
                i <= self.offset_witness,
                public@ == public_input_of(self, c.0@, pk_id.0@).take(i as int),
            decreases self.offset_witness - i,
        {
            let word: u64 = if i < self.constants.len() {
                self.constants[i]
            } else if i < self.offset_inout {
                0
            } else if i - self.offset_inout < 4 {
                read_le(c.0.as_slice(), 8 * (i - self.offset_inout), 8)
            } else if i - self.offset_inout < 8 {
                read_le(pk_id.0.as_slice(), 8 * (i - self.offset_inout - 4), 8)
            } else {
                0
            };
            public.push(word);
            i += 1;
            assert(public@ =~= public_input_of(self, c.0@, pk_id.0@).take(i as int));
        }
        assert(public@ =~= public_input_of(self, c.0@, pk_id.0@));
        public
    }
}

/// A public input belongs to one commitment and one fingerprint.
pub proof fn law_public_input_binds(
    layout: &PublicLayout,
    c: Seq<u8>,
    pk_id: Seq<u8>,
    other_c: Seq<u8>,
    other_pk_id: Seq<u8>,
)
    requires
        layout.wf(),
        c.len() == 32,
        pk_id.len() == 32,
        other_c.len() == 32,
        other_pk_id.len() == 32,
        public_input_of(layout, c, pk_id) == public_input_of(layout, other_c, other_pk_id),
    ensures
        c == other_c,
        pk_id == other_pk_id,
{
    let public = public_input_of(layout, c, pk_id);
    let other = public_input_of(layout, other_c, other_pk_id);
    assert forall|i: int| 0 <= i < 4 implies word_of(c, i) == word_of(other_c, i) && word_of(
        pk_id,
        i,
    ) == word_of(other_pk_id, i) by {
        assert(public[layout.offset_inout + i] == other[layout.offset_inout + i]);
        assert(public[layout.offset_inout + 4 + i] == other[layout.offset_inout + 4 + i]);
    }
    lemma_words_determine(c, other_c);
    lemma_words_determine(pk_id, other_pk_id);
}

/// Bytes with the same words are the same.
proof fn lemma_words_determine(a: Seq<u8>, b: Seq<u8>)
    requires
        a.len() == 32,
        b.len() == 32,
        forall|i: int| 0 <= i < 4 ==> word_of(a, i) == word_of(b, i),
    ensures
        a == b,
{
    assert forall|j: int| 0 <= j < 32 implies a[j] == b[j] by {
        let i = j / 8;
        let left = a.subrange(8 * i, 8 * i + 8);
        let right = b.subrange(8 * i, 8 * i + 8);
        bytes::lemma_byte_ranges();
        bytes::lemma_le_bytes(left);
        bytes::lemma_le_bytes(right);
        assert(word_of(a, i) == word_of(b, i));
        assert(left == right);
        assert(a[j] == left[j - 8 * i]);
        assert(b[j] == right[j - 8 * i]);
    }
    assert(a =~= b);
}

/// What the circuit is handed about a signed message.
pub struct Statement {
    /// Digest of the payload.
    pub m: [u8; 32],
    /// Expanded public key.
    pub lanes: PkLanes,
}

impl Statement {
    /// Whether the statement is about a payload and a key.
    pub open spec fn is_about(&self, payload: Seq<u8>, cpk: Seq<u8>) -> bool {
        &&& self.m@ == api::shake256_of(payload, 32)
        &&& self.lanes.wf()
        &&& lanes::expands(cpk, &self.lanes)
    }

    /// Statement about a signed message.
    pub fn of(signed: &SignedMessage<'_>) -> (statement: Self)
        ensures
            statement.is_about(signed.payload@, signed.cpk@),
            statement.m@ == api::shake256_of(signed.payload@, 32),
            statement.lanes.wf(),
            lanes::expands(signed.cpk@, &statement.lanes),
    {
        Statement { m: shake256_32(signed.payload), lanes: expand_pk_to_lanes(signed.cpk) }
    }

    /// Bundle of a proof of the statement.
    pub fn bundle(&self, proof_bytes: Vec<u8>) -> (bundle: ProofBundle)
        requires
            self.lanes.wf(),
        ensures
            bundle.c == api::c_of_digest(self.m@),
            bundle.pk_id == api::pk_id_of_lanes(&self.lanes),
            bundle.proof.0 == proof_bytes,
            bundle.c.0 == api::keccak256_of(seq![1u8, 0, 0, 0, 0, 0, 0, 0] + self.m@),
            bundle.pk_id.0 == api::keccak256_of(
                seq![2u8, 0, 0, 0, 0, 0, 0, 0] + api::packed_entries(self.lanes.all()),
            ),
    {
        ProofBundle {
            c: compute_c_from_digest(&self.m),
            pk_id: pk_id_from_lanes(&self.lanes),
            proof: Proof(proof_bytes),
        }
    }
}

/// A bundle made for a signed message carries the commitments that anyone computes from the
/// payload and the key.
pub proof fn law_bundle_matches_commitments(
    statement: &Statement,
    bundle: &ProofBundle,
    payload: Seq<u8>,
    cpk: Seq<u8>,
)
    requires
        cpk.len() == 4912,
        statement.is_about(payload, cpk),
        bundle.c == api::c_of_digest(statement.m@),
        bundle.pk_id == api::pk_id_of_lanes(&statement.lanes),
    ensures
        bundle.c == api::c_of(payload),
        bundle.pk_id == api::pk_id_of(cpk),
{
    api::law_packing_inverts_expansion(cpk, &statement.lanes);
}

} // verus!
