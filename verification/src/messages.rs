//! Error texts.

use crate::cact::{CactError, TAG};
use crate::bundle::V2LoadError;
use crate::cq::{CqError, CODEBOOK_LEN};
use crate::numerals::{decimal, hex_digits, push_decimal, push_hex, push_size};
use crate::sp_tokenizer::TokenizerError;
use vstd::prelude::*;
use vstd::string::*;

verus! {

/// The text of a refused tensor.
pub open spec fn cq_text(e: CqError) -> Seq<char> {
    match e {
        CqError::UnsupportedBits(b) => "UnsupportedBits("@ + decimal(b as nat) + ")"@,
        CqError::BadGroup(g) => "BadGroup("@ + decimal(g as nat) + ")"@,
        CqError::BadCodebookLen(n) => "BadCodebookLen("@ + decimal(n as nat) + ")"@,
        CqError::ShortBlob { need, got } => "ShortBlob { need: "@ + decimal(need as nat)
            + ", got: "@ + decimal(got as nat) + " }"@,
        CqError::EmptyShape => "EmptyShape"@,
    }
}

/// Four dimensions as text.
pub open spec fn shape_text(s: [usize; 4]) -> Seq<char> {
    "["@ + decimal(s@[0] as nat) + ", "@ + decimal(s@[1] as nat) + ", "@ + decimal(s@[2] as nat)
        + ", "@ + decimal(s@[3] as nat) + "]"@
}

/// The text of a refused container.
pub open spec fn cact_text(e: CactError) -> Seq<char> {
    match e {
        CactError::TooShort { need, got } => "cact truncated: need at least "@ + decimal(
            need as nat,
        ) + " bytes, got "@ + decimal(got as nat),
        CactError::BadTag(t) => "not a cact blob: tag 0x"@ + hex_digits(t as int, 8)
            + ", want 0x"@ + hex_digits(TAG as int, 8),
        CactError::BadCodebookLen(n) => "header codebook is "@ + decimal(n as nat)
            + " floats, want "@ + decimal(CODEBOOK_LEN as nat) + " (cb2|cb3|cb4)"@,
        CactError::BlobOutOfRange { index, offset, nbytes, file } => "tensor "@ + decimal(
            index as nat,
        ) + " spans "@ + decimal(offset as nat) + ".."@ + decimal((offset + nbytes) as nat)
            + " but the file is "@ + decimal(file as nat) + " bytes"@,
        CactError::BadNdim { index, ndim } => "tensor "@ + decimal(index as nat) + " has ndim "@
            + decimal(ndim as nat) + ", want 0..=4"@,
        CactError::DtypeMismatch { index, want, got } => "tensor "@ + decimal(index as nat)
            + " has dtype "@ + decimal(got as nat) + ", want "@ + decimal(want as nat),
        CactError::RaggedBlob { index, nbytes } => "tensor "@ + decimal(index as nat) + " has "@
            + decimal(nbytes as nat) + " bytes, not a whole element count"@,
        CactError::TensorCountTooSmall { need, got } => "the canon for this geometry needs "@
            + decimal(need as nat) + " tensors, directory has "@ + decimal(got as nat),
        CactError::ShapeMismatch { index, what, want, got } => "tensor "@ + decimal(index as nat)
            + " ("@ + what@ + "): shape "@ + shape_text(got) + " does not match geometry "@
            + shape_text(want),
        CactError::BadGeometry(field) => "header field "@ + field@ + " must be non-zero"@,
        CactError::BadHeadManifest { extra } => decimal(extra as nat)
            + " trailing tensors is not 1 + 3*heads for any head count"@,
        CactError::UnknownHeadCode(c) => "unknown probe-head code "@ + decimal(c as nat),
        CactError::Cq(e) => "cq: "@ + cq_text(e),
    }
}

/// The text of a refused tokenizer.
pub open spec fn tokenizer_text(e: TokenizerError) -> Seq<char> {
    match e {
        TokenizerError::Truncated { need, got } => "tokenizer blob truncated: need "@ + decimal(
            need as nat,
        ) + " bytes, got "@ + decimal(got as nat),
        TokenizerError::InvalidUtf8 { piece } => "piece "@ + decimal(piece as nat)
            + " is not valid UTF-8"@,
        TokenizerError::Empty => "tokenizer blob declares zero pieces"@,
        TokenizerError::SpecialIdOutOfRange { name, id, n_pieces } => "header "@ + name@ + "="@
            + decimal(id as nat) + " is outside the "@ + decimal(n_pieces as nat)
            + "-piece table"@,
        TokenizerError::MalformedBytePiece { piece } => "byte piece "@ + decimal(piece as nat)
            + " is not of the form <0xNN>"@,
    }
}

/// The text of a container that could not be loaded.
pub open spec fn load_text(e: V2LoadError) -> Seq<char> {
    match e {
        V2LoadError::Cact(e) => cact_text(e),
        V2LoadError::Tokenizer(e) => tokenizer_text(e),
        V2LoadError::Model(m) => "model rejected: "@ + m@,
    }
}

fn push_shape(out: &mut String, s: &[usize; 4])
    ensures
        final(out)@ == old(out)@ + shape_text(*s),
{
    let ghost before = out@;
    out.append("[");
    push_size(out, s[0]);
    out.append(", ");
    push_size(out, s[1]);
    out.append(", ");
    push_size(out, s[2]);
    out.append(", ");
    push_size(out, s[3]);
    out.append("]");
    assert(out@ =~= before + shape_text(*s));
}

impl CqError {
    /// The error as text.
    pub fn message(&self) -> (r: String)
        ensures
            r@ == cq_text(*self),
    {
        let mut out: String = String::new();
        match self {
            CqError::UnsupportedBits(b) => {
                out.append("UnsupportedBits(");
                push_decimal(&mut out, *b as u128);
                out.append(")");
            },
            CqError::BadGroup(g) => {
                out.append("BadGroup(");
                push_size(&mut out, *g);
                out.append(")");
            },
            CqError::BadCodebookLen(n) => {
                out.append("BadCodebookLen(");
                push_size(&mut out, *n);
                out.append(")");
            },
            CqError::ShortBlob { need, got } => {
                out.append("ShortBlob { need: ");
                push_size(&mut out, *need);
                out.append(", got: ");
                push_size(&mut out, *got);
                out.append(" }");
            },
            CqError::EmptyShape => {
                out.append("EmptyShape");
            },
        }
        assert(out@ =~= cq_text(*self));
        out
    }
}

impl CactError {
    /// The error as text.
    pub fn message(&self) -> (r: String)
        ensures
            r@ == cact_text(*self),
    {
        let mut out: String = String::new();
        match self {
            CactError::TooShort { need, got } => {
                out.append("cact truncated: need at least ");
                push_size(&mut out, *need);
                out.append(" bytes, got ");
                push_size(&mut out, *got);
            },
            CactError::BadTag(t) => {
                out.append("not a cact blob: tag 0x");
                push_hex(&mut out, *t, 8);
                out.append(", want 0x");
                push_hex(&mut out, TAG, 8);
            },
            CactError::BadCodebookLen(n) => {
                out.append("header codebook is ");
                push_size(&mut out, *n);
                out.append(" floats, want ");
                push_size(&mut out, CODEBOOK_LEN);
                out.append(" (cb2|cb3|cb4)");
            },
            CactError::BlobOutOfRange { index, offset, nbytes, file } => {
                out.append("tensor ");
                push_size(&mut out, *index);
                out.append(" spans ");
                push_decimal(&mut out, *offset as u128);
                out.append("..");
                push_decimal(&mut out, *offset as u128 + *nbytes as u128);
                out.append(" but the file is ");
                push_size(&mut out, *file);
                out.append(" bytes");
            },
            CactError::BadNdim { index, ndim } => {
                out.append("tensor ");
                push_size(&mut out, *index);
                out.append(" has ndim ");
                push_decimal(&mut out, *ndim as u128);
                out.append(", want 0..=4");
            },
            CactError::DtypeMismatch { index, want, got } => {
                out.append("tensor ");
                push_size(&mut out, *index);
                out.append(" has dtype ");
                push_decimal(&mut out, *got as u128);
                out.append(", want ");
                push_decimal(&mut out, *want as u128);
            },
            CactError::RaggedBlob { index, nbytes } => {
                out.append("tensor ");
                push_size(&mut out, *index);
                out.append(" has ");
                push_decimal(&mut out, *nbytes as u128);
                out.append(" bytes, not a whole element count");
            },
            CactError::TensorCountTooSmall { need, got } => {
                out.append("the canon for this geometry needs ");
                push_size(&mut out, *need);
                out.append(" tensors, directory has ");
                push_size(&mut out, *got);
            },
            CactError::ShapeMismatch { index, what, want, got } => {
                out.append("tensor ");
                push_size(&mut out, *index);
                out.append(" (");
                out.append(what);
                out.append("): shape ");
                push_shape(&mut out, got);
                out.append(" does not match geometry ");
                push_shape(&mut out, want);
            },
            CactError::BadGeometry(field) => {
                out.append("header field ");
                out.append(field);
                out.append(" must be non-zero");
            },
            CactError::BadHeadManifest { extra } => {
                push_size(&mut out, *extra);
                out.append(" trailing tensors is not 1 + 3*heads for any head count");
            },
            CactError::UnknownHeadCode(c) => {
                out.append("unknown probe-head code ");
                push_decimal(&mut out, *c as u128);
            },
            CactError::Cq(e) => {
                let inner = e.message();
                out.append("cq: ");
                out.append(inner.as_str());
            },
        }
        assert(out@ =~= cact_text(*self));
        out
    }
}

impl TokenizerError {
    /// The error as text.
    pub fn message(&self) -> (r: String)
        ensures
            r@ == tokenizer_text(*self),
    {
        let mut out: String = String::new();
        match self {
            TokenizerError::Truncated { need, got } => {
                out.append("tokenizer blob truncated: need ");
                push_size(&mut out, *need);
                out.append(" bytes, got ");
                push_size(&mut out, *got);
            },
            TokenizerError::InvalidUtf8 { piece } => {
                out.append("piece ");
                push_size(&mut out, *piece);
                out.append(" is not valid UTF-8");
            },
            TokenizerError::Empty => {
                out.append("tokenizer blob declares zero pieces");
            },
            TokenizerError::SpecialIdOutOfRange { name, id, n_pieces } => {
                out.append("header ");
                out.append(name);
                out.append("=");
                push_decimal(&mut out, *id as u128);
                out.append(" is outside the ");
                push_size(&mut out, *n_pieces);
                out.append("-piece table");
            },
            TokenizerError::MalformedBytePiece { piece } => {
                out.append("byte piece ");
                push_size(&mut out, *piece);
                out.append(" is not of the form <0xNN>");
            },
        }
        assert(out@ =~= tokenizer_text(*self));
        out
    }
}

impl V2LoadError {
    /// The error as text.
    pub fn message(&self) -> (r: String)
        ensures
            r@ == load_text(*self),
    {
        match self {
            V2LoadError::Cact(e) => e.message(),
            V2LoadError::Tokenizer(e) => e.message(),
            V2LoadError::Model(m) => {
                let mut out: String = String::new();
                out.append("model rejected: ");
                out.append(m);
                assert(out@ =~= load_text(*self));
                out
            },
        }
    }
}

/// What a refused container is reported with: the size or value that was wanted and the
/// one that was there, each in its place, and the tensor by its number.
pub proof fn law_reports_tell_what_was_wanted_from_what_was_there(
    index: usize,
    want: usize,
    got: usize,
    at: u64,
    n: u64,
    file: usize,
    tag: u32,
    code: u8,
    dtype: u8,
    what: &'static str,
)
    ensures
        cact_text(CactError::TooShort { need: want, got }) == "cact truncated: need at least "@
            + decimal(want as nat) + " bytes, got "@ + decimal(got as nat),
        cact_text(CactError::BadTag(tag)) == "not a cact blob: tag 0x"@ + hex_digits(tag as int, 8)
            + ", want 0x"@ + hex_digits(0x05E1_2A83, 8),
        cact_text(CactError::BadCodebookLen(got)) == "header codebook is "@ + decimal(got as nat)
            + " floats, want "@ + decimal(28) + " (cb2|cb3|cb4)"@,
        cact_text(CactError::BlobOutOfRange { index, offset: at, nbytes: n, file }) == "tensor "@
            + decimal(index as nat) + " spans "@ + decimal(at as nat) + ".."@ + decimal(
            (at + n) as nat,
        ) + " but the file is "@ + decimal(file as nat) + " bytes"@,
        cact_text(CactError::DtypeMismatch { index, want: code, got: dtype }) == "tensor "@
            + decimal(index as nat) + " has dtype "@ + decimal(dtype as nat) + ", want "@ + decimal(
            code as nat,
        ),
        cact_text(CactError::RaggedBlob { index, nbytes: n }) == "tensor "@ + decimal(
            index as nat,
        ) + " has "@ + decimal(n as nat) + " bytes, not a whole element count"@,
        cact_text(CactError::TensorCountTooSmall { need: want, got })
            == "the canon for this geometry needs "@ + decimal(want as nat)
            + " tensors, directory has "@ + decimal(got as nat),
        cact_text(CactError::BadGeometry(what)) == "header field "@ + what@ + " must be non-zero"@,
        cact_text(CactError::BadHeadManifest { extra: got }) == decimal(got as nat)
            + " trailing tensors is not 1 + 3*heads for any head count"@,
        cq_text(CqError::ShortBlob { need: want, got }) == "ShortBlob { need: "@ + decimal(
            want as nat,
        ) + ", got: "@ + decimal(got as nat) + " }"@,
        tokenizer_text(TokenizerError::Truncated { need: want, got })
            == "tokenizer blob truncated: need "@ + decimal(want as nat) + " bytes, got "@ + decimal(
            got as nat,
        ),
        tokenizer_text(TokenizerError::InvalidUtf8 { piece: index }) == "piece "@ + decimal(
            index as nat,
        ) + " is not valid UTF-8"@,
        tokenizer_text(TokenizerError::SpecialIdOutOfRange { name: what, id: tag, n_pieces: got })
            == "header "@ + what@ + "="@ + decimal(tag as nat) + " is outside the "@ + decimal(
            got as nat,
        ) + "-piece table"@,
        tokenizer_text(TokenizerError::MalformedBytePiece { piece: index }) == "byte piece "@
            + decimal(index as nat) + " is not of the form <0xNN>"@,
        load_text(V2LoadError::Model(what)) == "model rejected: "@ + what@,
{
}

/// A container that cannot be loaded is reported as its part would be.
pub proof fn law_reports_pass_on_those_of_the_parts(
    c: CactError,
    t: TokenizerError,
    q: CqError,
    index: usize,
    a: [usize; 4],
    b: [usize; 4],
    what: &'static str,
)
    ensures
        load_text(V2LoadError::Cact(c)) == cact_text(c),
        load_text(V2LoadError::Tokenizer(t)) == tokenizer_text(t),
        cact_text(CactError::Cq(q)) == "cq: "@ + cq_text(q),
        cact_text(CactError::ShapeMismatch { index, what, want: a, got: b }) == "tensor "@ + decimal(
            index as nat,
        ) + " ("@ + what@ + "): shape "@ + shape_text(b) + " does not match geometry "@
            + shape_text(a),
        shape_text(a) == "["@ + decimal(a@[0] as nat) + ", "@ + decimal(a@[1] as nat) + ", "@
            + decimal(a@[2] as nat) + ", "@ + decimal(a@[3] as nat) + "]"@,
{
}

} // verus!
