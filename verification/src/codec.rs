//! The wire codec: a fixed binary frame layout for the four message
//! kinds, an encoder, a decoder that rejects malformed frames, and the
//! proof that decoding inverts encoding.
//!
//! Frame layout, all integers little-endian:
//! one kind byte; 8 serial bytes; one flags byte; then, each behind a
//! presence byte: the reply serial and the six byte-string header
//! fields (path, interface, member, destination, sender, error name);
//! then the byte length of the body region; then the body region: an
//! argument count followed by the arguments, each a tag byte and its
//! payload. Byte strings carry an 8-byte length prefix.

use vstd::prelude::*;
use crate::arg::{Argument, ArgV, args_view};
use crate::bytes::{
    copy_range, le_bytes, le_value, lemma_le_bytes_len, lemma_le_round_trip,
    lemma_le_value_bound, lemma_pow256_8, pow256, push_bytes, push_u64_le, read_u64_le,
};
use crate::msg::{is_reply_kind, Kind, Message, MessageV, opt_bytes_view, wf_arg, wf_message};

verus! {

/// Why a frame was rejected.
#[derive(Clone, Copy, PartialEq, Eq, Structural, Debug)]
pub enum DecodeError {
    /// The frame ends before a field it announces.
    Truncated,
    /// The declared body length does not match the bytes present.
    BodyLengthMismatch,
    /// An argument carries an unknown type tag.
    UnknownTag,
    /// A method return or error frame lacks a reply serial.
    MissingReplySerial,
    /// Any other ill-formed content: an unknown kind byte, a bad
    /// presence, flag or boolean byte, or fields that do not fit the
    /// frame's kind.
    Malformed,
}

pub open spec fn kind_code(k: Kind) -> u8 {
    match k {
        Kind::MethodCall => 1,
        Kind::MethodReturn => 2,
        Kind::Error => 3,
        Kind::Signal => 4,
    }
}

pub open spec fn code_kind(b: u8) -> Option<Kind> {
    if b == 1 {
        Some(Kind::MethodCall)
    } else if b == 2 {
        Some(Kind::MethodReturn)
    } else if b == 3 {
        Some(Kind::Error)
    } else if b == 4 {
        Some(Kind::Signal)
    } else {
        None
    }
}

pub open spec fn flag_byte(b: bool) -> u8 {
    if b {
        1
    } else {
        0
    }
}

/// A length-prefixed byte string.
pub open spec fn enc_lpstr(s: Seq<u8>) -> Seq<u8> {
    le_bytes(s.len(), 8) + s
}

pub open spec fn enc_opt_u64(o: Option<u64>) -> Seq<u8> {
    match o {
        None => seq![0u8],
        Some(x) => seq![1u8] + le_bytes(x as nat, 8),
    }
}

pub open spec fn enc_opt_str(o: Option<Seq<u8>>) -> Seq<u8> {
    match o {
        None => seq![0u8],
        Some(s) => seq![1u8] + enc_lpstr(s),
    }
}

pub open spec fn enc_arg(a: ArgV) -> Seq<u8> {
    match a {
        ArgV::Str(s) => seq![1u8] + enc_lpstr(s),
        ArgV::U64(x) => seq![2u8] + le_bytes(x as nat, 8),
        ArgV::Bool(b) => seq![3u8, flag_byte(b)],
    }
}

pub open spec fn enc_args(args: Seq<ArgV>) -> Seq<u8>
    decreases args.len(),
{
    if args.len() == 0 {
        Seq::empty()
    } else {
        enc_arg(args[0]) + enc_args(args.drop_first())
    }
}

/// The body region: the argument count, then the arguments.
pub open spec fn enc_body(body: Seq<ArgV>) -> Seq<u8> {
    le_bytes(body.len(), 8) + enc_args(body)
}

/// The full encoding of a message.
pub open spec fn spec_encode(m: MessageV) -> Seq<u8> {
    seq![kind_code(m.kind)] + (le_bytes(m.serial as nat, 8) + (seq![flag_byte(m.no_reply)] + (
    enc_opt_u64(m.reply_serial) + (enc_opt_str(m.path) + (enc_opt_str(m.interface) + (enc_opt_str(
        m.member,
    ) + (enc_opt_str(m.destination) + (enc_opt_str(m.sender) + (enc_opt_str(m.error_name) + (
    le_bytes(enc_body(m.body).len(), 8) + enc_body(m.body)))))))))))
}

/// A message whose variable-length pieces all fit their 8-byte length
/// prefixes, so that its encoding is unambiguous.
pub open spec fn wf_frame(m: MessageV) -> bool {
    &&& wf_message(m)
    &&& enc_body(m.body).len() < pow256(8)
}

pub open spec fn p_u8(s: Seq<u8>, i: int) -> Result<(u8, int), DecodeError> {
    if 0 <= i && i + 1 <= s.len() {
        Ok((s[i], i + 1))
    } else {
        Err(DecodeError::Truncated)
    }
}

pub open spec fn p_u64(s: Seq<u8>, i: int) -> Result<(u64, int), DecodeError> {
    if 0 <= i && i + 8 <= s.len() {
        Ok((le_value(s.subrange(i, i + 8)) as u64, i + 8))
    } else {
        Err(DecodeError::Truncated)
    }
}

pub open spec fn p_lpstr(s: Seq<u8>, i: int) -> Result<(Seq<u8>, int), DecodeError> {
    match p_u64(s, i) {
        Err(e) => Err(e),
        Ok((n, j)) => if j + n <= s.len() {
            Ok((s.subrange(j, j + n), j + n))
        } else {
            Err(DecodeError::Truncated)
        },
    }
}

pub open spec fn p_opt_u64(s: Seq<u8>, i: int) -> Result<(Option<u64>, int), DecodeError> {
    match p_u8(s, i) {
        Err(e) => Err(e),
        Ok((b, j)) => if b == 0 {
            Ok((None, j))
        } else if b == 1 {
            match p_u64(s, j) {
                Err(e) => Err(e),
                Ok((x, k)) => Ok((Some(x), k)),
            }
        } else {
            Err(DecodeError::Malformed)
        },
    }
}

pub open spec fn p_opt_str(s: Seq<u8>, i: int) -> Result<(Option<Seq<u8>>, int), DecodeError> {
    match p_u8(s, i) {
        Err(e) => Err(e),
        Ok((b, j)) => if b == 0 {
            Ok((None, j))
        } else if b == 1 {
            match p_lpstr(s, j) {
                Err(e) => Err(e),
                Ok((t, k)) => Ok((Some(t), k)),
            }
        } else {
            Err(DecodeError::Malformed)
        },
    }
}

pub open spec fn p_arg(s: Seq<u8>, i: int) -> Result<(ArgV, int), DecodeError> {
    match p_u8(s, i) {
        Err(e) => Err(e),
        Ok((t, j)) => if t == 1 {
            match p_lpstr(s, j) {
                Err(e) => Err(e),
                Ok((v, k)) => Ok((ArgV::Str(v), k)),
            }
        } else if t == 2 {
            match p_u64(s, j) {
                Err(e) => Err(e),
                Ok((x, k)) => Ok((ArgV::U64(x), k)),
            }
        } else if t == 3 {
            match p_u8(s, j) {
                Err(e) => Err(e),
                Ok((b, k)) => if b == 0 {
                    Ok((ArgV::Bool(false), k))
                } else if b == 1 {
                    Ok((ArgV::Bool(true), k))
                } else {
                    Err(DecodeError::Malformed)
                },
            }
        } else {
            Err(DecodeError::UnknownTag)
        },
    }
}

pub open spec fn p_args(s: Seq<u8>, i: int, count: nat) -> Result<(Seq<ArgV>, int), DecodeError>
    decreases count,
{
    if count == 0 {
        Ok((Seq::empty(), i))
    } else {
        match p_arg(s, i) {
            Err(e) => Err(e),
            Ok((a, j)) => match p_args(s, j, (count - 1) as nat) {
                Err(e) => Err(e),
                Ok((rest, k)) => Ok((seq![a] + rest, k)),
            },
        }
    }
}

/// The shape rules a decoded message must satisfy (the well-formedness
/// conditions of `wf_message` that bytes alone do not force).
pub open spec fn check_shape(m: MessageV) -> Result<MessageV, DecodeError> {
    if is_reply_kind(m.kind) && m.reply_serial.is_none() {
        Err(DecodeError::MissingReplySerial)
    } else if !is_reply_kind(m.kind) && m.reply_serial.is_some() {
        Err(DecodeError::Malformed)
    } else if (m.kind == Kind::MethodCall || m.kind == Kind::Signal) && (m.path.is_none()
        || m.member.is_none()) {
        Err(DecodeError::Malformed)
    } else if m.error_name.is_some() != (m.kind == Kind::Error) {
        Err(DecodeError::Malformed)
    } else if m.no_reply && m.kind != Kind::MethodCall {
        Err(DecodeError::Malformed)
    } else {
        Ok(m)
    }
}

/// What decoding a byte sequence yields: the unique message it
/// encodes, or the reason it is rejected. The header fields accumulate
/// one parse step at a time in the layers below.
pub open spec fn spec_decode(s: Seq<u8>) -> Result<MessageV, DecodeError> {
    match p_u8(s, 0) {
        Err(e) => Err(e),
        Ok((kb, i)) => match code_kind(kb) {
            None => Err(DecodeError::Malformed),
            Some(kind) => sd_serial(
                s,
                i,
                MessageV {
                    kind,
                    serial: 0,
                    no_reply: false,
                    reply_serial: None,
                    path: None,
                    interface: None,
                    member: None,
                    destination: None,
                    sender: None,
                    error_name: None,
                    body: Seq::empty(),
                },
            ),
        },
    }
}

pub open spec fn sd_serial(s: Seq<u8>, i: int, h: MessageV) -> Result<MessageV, DecodeError> {
    match p_u64(s, i) {
        Err(e) => Err(e),
        Ok((x, j)) => sd_flags(s, j, MessageV { serial: x, ..h }),
    }
}

pub open spec fn sd_flags(s: Seq<u8>, i: int, h: MessageV) -> Result<MessageV, DecodeError> {
    match p_u8(s, i) {
        Err(e) => Err(e),
        Ok((fb, j)) => if fb != 0 && fb != 1 {
            Err(DecodeError::Malformed)
        } else {
            sd_reply_serial(s, j, MessageV { no_reply: fb == 1, ..h })
        },
    }
}

pub open spec fn sd_reply_serial(s: Seq<u8>, i: int, h: MessageV) -> Result<
    MessageV,
    DecodeError,
> {
    match p_opt_u64(s, i) {
        Err(e) => Err(e),
        Ok((o, j)) => sd_path(s, j, MessageV { reply_serial: o, ..h }),
    }
}

pub open spec fn sd_path(s: Seq<u8>, i: int, h: MessageV) -> Result<MessageV, DecodeError> {
    match p_opt_str(s, i) {
        Err(e) => Err(e),
        Ok((o, j)) => sd_interface(s, j, MessageV { path: o, ..h }),
    }
}

pub open spec fn sd_interface(s: Seq<u8>, i: int, h: MessageV) -> Result<MessageV, DecodeError> {
    match p_opt_str(s, i) {
        Err(e) => Err(e),
        Ok((o, j)) => sd_member(s, j, MessageV { interface: o, ..h }),
    }
}

pub open spec fn sd_member(s: Seq<u8>, i: int, h: MessageV) -> Result<MessageV, DecodeError> {
    match p_opt_str(s, i) {
        Err(e) => Err(e),
        Ok((o, j)) => sd_destination(s, j, MessageV { member: o, ..h }),
    }
}

pub open spec fn sd_destination(s: Seq<u8>, i: int, h: MessageV) -> Result<
    MessageV,
    DecodeError,
> {
    match p_opt_str(s, i) {
        Err(e) => Err(e),
        Ok((o, j)) => sd_sender(s, j, MessageV { destination: o, ..h }),
    }
}

pub open spec fn sd_sender(s: Seq<u8>, i: int, h: MessageV) -> Result<MessageV, DecodeError> {
    match p_opt_str(s, i) {
        Err(e) => Err(e),
        Ok((o, j)) => sd_error_name(s, j, MessageV { sender: o, ..h }),
    }
}

pub open spec fn sd_error_name(s: Seq<u8>, i: int, h: MessageV) -> Result<MessageV, DecodeError> {
    match p_opt_str(s, i) {
        Err(e) => Err(e),
        Ok((o, j)) => spec_decode_body(s, j, MessageV { error_name: o, ..h }),
    }
}

/// Parses the body region at `i` and finishes the shape checks.
pub open spec fn spec_decode_body(s: Seq<u8>, i: int, header: MessageV) -> Result<
    MessageV,
    DecodeError,
> {
    match p_u64(s, i) {
        Err(e) => Err(e),
        Ok((blen, j)) => if s.len() - j != blen {
            Err(DecodeError::BodyLengthMismatch)
        } else {
            match p_u64(s, j) {
                Err(e) => Err(e),
                Ok((count, k)) => match p_args(s, k, count as nat) {
                    Err(e) => Err(e),
                    Ok((body, end)) => if end != s.len() {
                        Err(DecodeError::BodyLengthMismatch)
                    } else {
                        check_shape(MessageV { body, ..header })
                    },
                },
            }
        },
    }
}

fn kind_byte(k: Kind) -> (b: u8)
    ensures
        b == kind_code(k),
{
    match k {
        Kind::MethodCall => 1,
        Kind::MethodReturn => 2,
        Kind::Error => 3,
        Kind::Signal => 4,
    }
}

fn push_lpstr(out: &mut Vec<u8>, v: &Vec<u8>)
    ensures
        final(out)@ == old(out)@ + enc_lpstr(v@),
{
    let n: u64 = v.len() as u64;
    push_u64_le(out, n);
    push_bytes(out, v);
    proof {
        assert(final(out)@ =~= old(out)@ + (le_bytes(v@.len(), 8) + v@));
    }
}

fn push_opt_u64(out: &mut Vec<u8>, o: &Option<u64>)
    ensures
        final(out)@ == old(out)@ + enc_opt_u64(*o),
{
    match o {
        None => {
            out.push(0);
            proof {
                assert(final(out)@ =~= old(out)@ + seq![0u8]);
            }
        },
        Some(x) => {
            out.push(1);
            push_u64_le(out, *x);
            proof {
                assert(final(out)@ =~= old(out)@ + (seq![1u8] + le_bytes(*x as nat, 8)));
            }
        },
    }
}

fn push_opt_str(out: &mut Vec<u8>, o: &Option<Vec<u8>>)
    ensures
        final(out)@ == old(out)@ + enc_opt_str(opt_bytes_view(*o)),
{
    match o {
        None => {
            out.push(0);
            proof {
                assert(final(out)@ =~= old(out)@ + seq![0u8]);
            }
        },
        Some(v) => {
            out.push(1);
            push_lpstr(out, v);
            proof {
                assert(final(out)@ =~= old(out)@ + (seq![1u8] + enc_lpstr(v@)));
            }
        },
    }
}

fn push_arg(out: &mut Vec<u8>, a: &Argument)
    ensures
        final(out)@ == old(out)@ + enc_arg(a@),
{
    match a {
        Argument::Str(v) => {
            out.push(1);
            push_lpstr(out, v);
            proof {
                assert(final(out)@ =~= old(out)@ + (seq![1u8] + enc_lpstr(v@)));
            }
        },
        Argument::U64(x) => {
            out.push(2);
            push_u64_le(out, *x);
            proof {
                assert(final(out)@ =~= old(out)@ + (seq![2u8] + le_bytes(*x as nat, 8)));
            }
        },
        Argument::Bool(b) => {
            out.push(3);
            let fb: u8 = if *b {
                1
            } else {
                0
            };
            out.push(fb);
            proof {
                assert(final(out)@ =~= old(out)@ + seq![3u8, flag_byte(*b)]);
            }
        },
    }
}

/// `enc_args` distributes over appending one argument at the end.
proof fn lemma_enc_args_snoc(args: Seq<ArgV>, a: ArgV)
    ensures
        enc_args(args.push(a)) == enc_args(args) + enc_arg(a),
    decreases args.len(),
{
    if args.len() == 0 {
        let p = args.push(a);
        assert(p[0] == a);
        assert(p.drop_first() =~= Seq::<ArgV>::empty());
        assert(args =~= Seq::<ArgV>::empty());
        assert(enc_args(Seq::<ArgV>::empty()) =~= Seq::<u8>::empty());
        assert(enc_args(p) == enc_arg(a) + enc_args(Seq::<ArgV>::empty()));
        assert(enc_arg(a) + Seq::<u8>::empty() =~= Seq::<u8>::empty() + enc_arg(a));
    } else {
        lemma_enc_args_snoc(args.drop_first(), a);
        assert(args.push(a).drop_first() =~= args.drop_first().push(a));
        assert(args.push(a)[0] == args[0]);
        assert(enc_args(args.push(a)) == enc_arg(args[0]) + (enc_args(args.drop_first()) + enc_arg(
            a,
        )));
        assert(enc_arg(args[0]) + (enc_args(args.drop_first()) + enc_arg(a)) =~= (enc_arg(args[0])
            + enc_args(args.drop_first())) + enc_arg(a));
    }
}

/// Serializes the body region (count, then arguments) of `body`.
fn encode_body(body: &Vec<Argument>) -> (out: Vec<u8>)
    ensures
        out@ == enc_body(args_view(body@)),
{
    let mut out: Vec<u8> = Vec::new();
    let n: u64 = body.len() as u64;
    push_u64_le(&mut out, n);
    proof {
        assert(args_view(body@).len() == body@.len());
        assert(out@ =~= le_bytes(args_view(body@).len(), 8) + enc_args(
            args_view(body@).subrange(0, 0),
        ));
        assert(enc_args(args_view(body@).subrange(0, 0)) =~= Seq::<u8>::empty());
    }
    let mut i: usize = 0;
    while i < body.len()
        invariant
            i <= body@.len(),
            out@ == le_bytes(args_view(body@).len(), 8) + enc_args(
                args_view(body@).subrange(0, i as int),
            ),
        decreases body@.len() - i,
    {
        push_arg(&mut out, &body[i]);
        i = i + 1;
        proof {
            let av = args_view(body@);
            assert(av.subrange(0, i as int) =~= av.subrange(0, i - 1).push(av[i - 1]));
            lemma_enc_args_snoc(av.subrange(0, i - 1), av[i - 1]);
            assert(av[i - 1] == body@[i - 1]@);
            assert(le_bytes(av.len(), 8) + enc_args(av.subrange(0, i - 1)) + enc_arg(av[i - 1])
                =~= le_bytes(av.len(), 8) + (enc_args(av.subrange(0, i - 1)) + enc_arg(
                av[i - 1],
            )));
        }
    }
    proof {
        assert(args_view(body@).subrange(0, body@.len() as int) =~= args_view(body@));
    }
    out
}

/// Encodes a message into the wire frame it denotes.
#[verifier::rlimit(30)]
pub fn encode(m: &Message) -> (out: Vec<u8>)
    ensures
        out@ == spec_encode(m@),
{
    let mut out: Vec<u8> = Vec::new();
    let kb: u8 = kind_byte(m.kind);
    out.push(kb);
    let ghost o1 = out@;
    push_u64_le(&mut out, m.serial);
    let ghost o2 = out@;
    let fb: u8 = if m.no_reply {
        1
    } else {
        0
    };
    out.push(fb);
    let ghost o3 = out@;
    push_opt_u64(&mut out, &m.reply_serial);
    let ghost o4 = out@;
    push_opt_str(&mut out, &m.path);
    let ghost o5 = out@;
    push_opt_str(&mut out, &m.interface);
    let ghost o6 = out@;
    push_opt_str(&mut out, &m.member);
    let ghost o7 = out@;
    push_opt_str(&mut out, &m.destination);
    let ghost o8 = out@;
    push_opt_str(&mut out, &m.sender);
    let ghost o9 = out@;
    push_opt_str(&mut out, &m.error_name);
    let ghost o10 = out@;
    let body: Vec<u8> = encode_body(&m.body);
    let blen: u64 = body.len() as u64;
    push_u64_le(&mut out, blen);
    let ghost o11 = out@;
    push_bytes(&mut out, &body);
    proof {
        let mv = m@;
        lemma_frame_decomposition(mv);
        assert(frame_prefix(mv, 0) =~= Seq::<u8>::empty());
        assert(o1 =~= frame_prefix(mv, 0) + frame_piece(mv, 0));
        assert(o1 == frame_prefix(mv, 1));
        assert(o2 == frame_prefix(mv, 2));
        assert(o3 =~= o2 + frame_piece(mv, 2));
        assert(o3 == frame_prefix(mv, 3));
        assert(o4 == frame_prefix(mv, 4));
        assert(o5 == frame_prefix(mv, 5));
        assert(o6 == frame_prefix(mv, 6));
        assert(o7 == frame_prefix(mv, 7));
        assert(o8 == frame_prefix(mv, 8));
        assert(o9 == frame_prefix(mv, 9));
        assert(o10 == frame_prefix(mv, 10));
        assert(blen as nat == enc_body(mv.body).len());
        assert(o11 == frame_prefix(mv, 11));
        assert(out@ == o11 + enc_body(mv.body));
        assert(frame_suffix(mv, 12) =~= frame_piece(mv, 12));
        assert(spec_encode(mv) == frame_prefix(mv, 11) + frame_piece(mv, 11) + frame_piece(
            mv,
            12,
        ));
        assert(enc_body(mv.body) == frame_piece(mv, 11) + frame_piece(mv, 12));
        assert(frame_prefix(mv, 11) + frame_piece(mv, 11) + frame_piece(mv, 12) =~= frame_prefix(
            mv,
            11,
        ) + (frame_piece(mv, 11) + frame_piece(mv, 12)));
        assert(out@ == spec_encode(mv));
    }
    out
}


fn byte_kind(b: u8) -> (r: Option<Kind>)
    ensures
        r == code_kind(b),
{
    if b == 1 {
        Some(Kind::MethodCall)
    } else if b == 2 {
        Some(Kind::MethodReturn)
    } else if b == 3 {
        Some(Kind::Error)
    } else if b == 4 {
        Some(Kind::Signal)
    } else {
        None
    }
}

fn d_u8(buf: &Vec<u8>, i: usize) -> (r: Result<(u8, usize), DecodeError>)
    ensures
        match r {
            Ok(p) => p_u8(buf@, i as int) == Ok::<(u8, int), DecodeError>((p.0, p.1 as int))
                && p.1 <= buf@.len(),
            Err(e) => p_u8(buf@, i as int) == Err::<(u8, int), DecodeError>(e),
        },
{
    if i < buf.len() {
        Ok((buf[i], i + 1))
    } else {
        Err(DecodeError::Truncated)
    }
}

fn d_u64(buf: &Vec<u8>, i: usize) -> (r: Result<(u64, usize), DecodeError>)
    ensures
        match r {
            Ok(p) => p_u64(buf@, i as int) == Ok::<(u64, int), DecodeError>((p.0, p.1 as int))
                && p.1 <= buf@.len(),
            Err(e) => p_u64(buf@, i as int) == Err::<(u64, int), DecodeError>(e),
        },
{
    match read_u64_le(buf, i) {
        Some(p) => {
            proof {
                lemma_le_value_bound(buf@.subrange(i as int, i + 8));
                lemma_pow256_8();
            }
            Ok(p)
        },
        None => Err(DecodeError::Truncated),
    }
}

fn d_lpstr(buf: &Vec<u8>, i: usize) -> (r: Result<(Vec<u8>, usize), DecodeError>)
    ensures
        match r {
            Ok(p) => p_lpstr(buf@, i as int) == Ok::<(Seq<u8>, int), DecodeError>(
                (p.0@, p.1 as int),
            ) && p.1 <= buf@.len(),
            Err(e) => p_lpstr(buf@, i as int) == Err::<(Seq<u8>, int), DecodeError>(e),
        },
{
    match d_u64(buf, i) {
        Err(e) => Err(e),
        Ok((n, j)) => {
            let rem: usize = buf.len() - j;
            if n <= rem as u64 {
                let nn: usize = n as usize;
                let v: Vec<u8> = copy_range(buf, j, nn);
                Ok((v, j + nn))
            } else {
                Err(DecodeError::Truncated)
            }
        },
    }
}

fn d_opt_u64(buf: &Vec<u8>, i: usize) -> (r: Result<(Option<u64>, usize), DecodeError>)
    ensures
        match r {
            Ok(p) => p_opt_u64(buf@, i as int) == Ok::<(Option<u64>, int), DecodeError>(
                (p.0, p.1 as int),
            ) && p.1 <= buf@.len(),
            Err(e) => p_opt_u64(buf@, i as int) == Err::<(Option<u64>, int), DecodeError>(e),
        },
{
    match d_u8(buf, i) {
        Err(e) => Err(e),
        Ok((b, j)) => if b == 0 {
            Ok((None, j))
        } else if b == 1 {
            match d_u64(buf, j) {
                Err(e) => Err(e),
                Ok((x, k)) => Ok((Some(x), k)),
            }
        } else {
            Err(DecodeError::Malformed)
        },
    }
}

fn d_opt_str(buf: &Vec<u8>, i: usize) -> (r: Result<(Option<Vec<u8>>, usize), DecodeError>)
    ensures
        match r {
            Ok(p) => p_opt_str(buf@, i as int) == Ok::<(Option<Seq<u8>>, int), DecodeError>(
                (opt_bytes_view(p.0), p.1 as int),
            ) && p.1 <= buf@.len(),
            Err(e) => p_opt_str(buf@, i as int) == Err::<(Option<Seq<u8>>, int), DecodeError>(e),
        },
{
    match d_u8(buf, i) {
        Err(e) => Err(e),
        Ok((b, j)) => if b == 0 {
            Ok((None, j))
        } else if b == 1 {
            match d_lpstr(buf, j) {
                Err(e) => Err(e),
                Ok((v, k)) => Ok((Some(v), k)),
            }
        } else {
            Err(DecodeError::Malformed)
        },
    }
}

fn d_arg(buf: &Vec<u8>, i: usize) -> (r: Result<(Argument, usize), DecodeError>)
    ensures
        match r {
            Ok(p) => p_arg(buf@, i as int) == Ok::<(ArgV, int), DecodeError>((p.0@, p.1 as int))
                && p.1 <= buf@.len(),
            Err(e) => p_arg(buf@, i as int) == Err::<(ArgV, int), DecodeError>(e),
        },
{
    match d_u8(buf, i) {
        Err(e) => Err(e),
        Ok((t, j)) => if t == 1 {
            match d_lpstr(buf, j) {
                Err(e) => Err(e),
                Ok((v, k)) => Ok((Argument::Str(v), k)),
            }
        } else if t == 2 {
            match d_u64(buf, j) {
                Err(e) => Err(e),
                Ok((x, k)) => Ok((Argument::U64(x), k)),
            }
        } else if t == 3 {
            match d_u8(buf, j) {
                Err(e) => Err(e),
                Ok((b, k)) => if b == 0 {
                    Ok((Argument::Bool(false), k))
                } else if b == 1 {
                    Ok((Argument::Bool(true), k))
                } else {
                    Err(DecodeError::Malformed)
                },
            }
        } else {
            Err(DecodeError::UnknownTag)
        },
    }
}

fn d_args(buf: &Vec<u8>, i: usize, count: u64) -> (r: Result<(Vec<Argument>, usize), DecodeError>)
    requires
        i <= buf@.len(),
    ensures
        match r {
            Ok(p) => p_args(buf@, i as int, count as nat) == Ok::<(Seq<ArgV>, int), DecodeError>(
                (args_view(p.0@), p.1 as int),
            ) && p.1 <= buf@.len(),
            Err(e) => p_args(buf@, i as int, count as nat) == Err::<(Seq<ArgV>, int), DecodeError>(
                e,
            ),
        },
{
    let mut acc: Vec<Argument> = Vec::new();
    let mut cur: usize = i;
    let mut k: u64 = 0;
    proof {
        assert(args_view(acc@) =~= Seq::<ArgV>::empty());
    }
    while k < count
        invariant
            k <= count,
            cur <= buf@.len(),
            match p_args(buf@, cur as int, (count - k) as nat) {
                Ok(q) => p_args(buf@, i as int, count as nat) == Ok::<
                    (Seq<ArgV>, int),
                    DecodeError,
                >((args_view(acc@) + q.0, q.1)),
                Err(e) => p_args(buf@, i as int, count as nat) == Err::<
                    (Seq<ArgV>, int),
                    DecodeError,
                >(e),
            },
        decreases count - k,
    {
        match d_arg(buf, cur) {
            Err(e) => {
                return Err(e);
            },
            Ok((a, nxt)) => {
                proof {
                    let m = (count - k) as nat;
                    assert(p_arg(buf@, cur as int) == Ok::<(ArgV, int), DecodeError>(
                        (a@, nxt as int),
                    ));
                    match p_args(buf@, nxt as int, (m - 1) as nat) {
                        Ok(q) => {
                            assert(p_args(buf@, cur as int, m) == Ok::<
                                (Seq<ArgV>, int),
                                DecodeError,
                            >((seq![a@] + q.0, q.1)));
                            assert(args_view(acc@.push(a)) =~= args_view(acc@).push(a@));
                            assert(args_view(acc@) + (seq![a@] + q.0) =~= args_view(acc@).push(a@)
                                + q.0);
                        },
                        Err(e) => {
                            assert(p_args(buf@, cur as int, m) == Err::<
                                (Seq<ArgV>, int),
                                DecodeError,
                            >(e));
                        },
                    }
                }
                acc.push(a);
                cur = nxt;
                k = k + 1;
            },
        }
    }
    proof {
        assert(p_args(buf@, cur as int, 0) == Ok::<(Seq<ArgV>, int), DecodeError>(
            (Seq::empty(), cur as int),
        ));
        assert(args_view(acc@) + Seq::<ArgV>::empty() =~= args_view(acc@));
    }
    Ok((acc, cur))
}

/// Decodes a wire frame; rejects every byte sequence that is not the
/// encoding of a well-shaped message.
#[verifier::rlimit(100)]
pub fn decode(buf: &Vec<u8>) -> (r: Result<Message, DecodeError>)
    ensures
        match r {
            Ok(m) => spec_decode(buf@) == Ok::<MessageV, DecodeError>(m@),
            Err(e) => spec_decode(buf@) == Err::<MessageV, DecodeError>(e),
        },
        r matches Ok(m) ==> (m@.reply_serial.is_some() == is_reply_kind(m@.kind) && ((m@.kind
            == Kind::MethodCall || m@.kind == Kind::Signal) ==> m@.path.is_some()
            && m@.member.is_some()) && (m@.error_name.is_some() == (m@.kind == Kind::Error)) && (
        m@.no_reply ==> m@.kind == Kind::MethodCall)),
{
    let (kb, i1) = match d_u8(buf, 0) {
        Ok(p) => p,
        Err(e) => {
            return Err(e);
        },
    };
    let kind: Kind = match byte_kind(kb) {
        Some(x) => x,
        None => {
            return Err(DecodeError::Malformed);
        },
    };
    let (serial, i2) = match d_u64(buf, i1) {
        Ok(p) => p,
        Err(e) => {
            return Err(e);
        },
    };
    let (fbyte, i3) = match d_u8(buf, i2) {
        Ok(p) => p,
        Err(e) => {
            return Err(e);
        },
    };
    if fbyte != 0 && fbyte != 1 {
        return Err(DecodeError::Malformed);
    }
    let no_reply: bool = fbyte == 1;
    let (reply_serial, i4) = match d_opt_u64(buf, i3) {
        Ok(p) => p,
        Err(e) => {
            return Err(e);
        },
    };
    let (path, i5) = match d_opt_str(buf, i4) {
        Ok(p) => p,
        Err(e) => {
            return Err(e);
        },
    };
    let (interface, i6) = match d_opt_str(buf, i5) {
        Ok(p) => p,
        Err(e) => {
            return Err(e);
        },
    };
    let (member, i7) = match d_opt_str(buf, i6) {
        Ok(p) => p,
        Err(e) => {
            return Err(e);
        },
    };
    let (destination, i8) = match d_opt_str(buf, i7) {
        Ok(p) => p,
        Err(e) => {
            return Err(e);
        },
    };
    let (sender, i9) = match d_opt_str(buf, i8) {
        Ok(p) => p,
        Err(e) => {
            return Err(e);
        },
    };
    let (error_name, i10) = match d_opt_str(buf, i9) {
        Ok(p) => p,
        Err(e) => {
            return Err(e);
        },
    };
    let (blen, i11) = match d_u64(buf, i10) {
        Ok(p) => p,
        Err(e) => {
            return Err(e);
        },
    };
    let rem: usize = buf.len() - i11;
    if rem as u64 != blen {
        return Err(DecodeError::BodyLengthMismatch);
    }
    let (count, i12) = match d_u64(buf, i11) {
        Ok(p) => p,
        Err(e) => {
            return Err(e);
        },
    };
    let (body, end) = match d_args(buf, i12, count) {
        Ok(p) => p,
        Err(e) => {
            return Err(e);
        },
    };
    if end != buf.len() {
        return Err(DecodeError::BodyLengthMismatch);
    }
    let m = Message {
        kind,
        serial,
        no_reply,
        reply_serial,
        path,
        interface,
        member,
        destination,
        sender,
        error_name,
        body,
    };
    let reply_kind: bool = m.kind == Kind::MethodReturn || m.kind == Kind::Error;
    if reply_kind && m.reply_serial.is_none() {
        return Err(DecodeError::MissingReplySerial);
    }
    if !reply_kind && m.reply_serial.is_some() {
        return Err(DecodeError::Malformed);
    }
    if (m.kind == Kind::MethodCall || m.kind == Kind::Signal) && (m.path.is_none()
        || m.member.is_none()) {
        return Err(DecodeError::Malformed);
    }
    if m.error_name.is_some() != (m.kind == Kind::Error) {
        return Err(DecodeError::Malformed);
    }
    if m.no_reply && !(m.kind == Kind::MethodCall) {
        return Err(DecodeError::Malformed);
    }
    Ok(m)
}


proof fn lemma_p_u8_at(s: Seq<u8>, pre: Seq<u8>, b: u8, suf: Seq<u8>)
    requires
        s == pre + seq![b] + suf,
    ensures
        p_u8(s, pre.len() as int) == Ok::<(u8, int), DecodeError>((b, (pre.len() + 1) as int)),
{
    assert(s[pre.len() as int] == b);
}

proof fn lemma_p_u64_at(s: Seq<u8>, pre: Seq<u8>, x: u64, suf: Seq<u8>)
    requires
        s == pre + le_bytes(x as nat, 8) + suf,
    ensures
        p_u64(s, pre.len() as int) == Ok::<(u64, int), DecodeError>((x, (pre.len() + 8) as int)),
{
    lemma_le_bytes_len(x as nat, 8);
    assert(s.subrange(pre.len() as int, (pre.len() + 8) as int) =~= le_bytes(x as nat, 8));
    lemma_pow256_8();
    lemma_le_round_trip(x as nat, 8);
}

proof fn lemma_p_lpstr_at(s: Seq<u8>, pre: Seq<u8>, t: Seq<u8>, suf: Seq<u8>)
    requires
        t.len() < pow256(8),
        s == pre + enc_lpstr(t) + suf,
    ensures
        p_lpstr(s, pre.len() as int) == Ok::<(Seq<u8>, int), DecodeError>(
            (t, (pre.len() + 8 + t.len()) as int),
        ),
{
    lemma_pow256_8();
    let x = t.len() as u64;
    assert(x as nat == t.len());
    lemma_le_bytes_len(t.len(), 8);
    assert(s =~= pre + le_bytes(x as nat, 8) + (t + suf));
    lemma_p_u64_at(s, pre, x, t + suf);
    assert(s.subrange((pre.len() + 8) as int, (pre.len() + 8 + t.len()) as int) =~= t);
}

proof fn lemma_p_opt_u64_at(s: Seq<u8>, pre: Seq<u8>, o: Option<u64>, suf: Seq<u8>)
    requires
        s == pre + enc_opt_u64(o) + suf,
    ensures
        p_opt_u64(s, pre.len() as int) == Ok::<(Option<u64>, int), DecodeError>(
            (o, (pre.len() + enc_opt_u64(o).len()) as int),
        ),
{
    match o {
        None => {
            lemma_p_u8_at(s, pre, 0u8, suf);
        },
        Some(x) => {
            lemma_le_bytes_len(x as nat, 8);
            assert(s =~= pre + seq![1u8] + (le_bytes(x as nat, 8) + suf));
            lemma_p_u8_at(s, pre, 1u8, le_bytes(x as nat, 8) + suf);
            assert(s =~= (pre + seq![1u8]) + le_bytes(x as nat, 8) + suf);
            lemma_p_u64_at(s, pre + seq![1u8], x, suf);
            assert((pre + seq![1u8]).len() == pre.len() + 1);
        },
    }
}

proof fn lemma_p_opt_str_at(s: Seq<u8>, pre: Seq<u8>, o: Option<Seq<u8>>, suf: Seq<u8>)
    requires
        (o matches Some(t) ==> t.len() < pow256(8)),
        s == pre + enc_opt_str(o) + suf,
    ensures
        p_opt_str(s, pre.len() as int) == Ok::<(Option<Seq<u8>>, int), DecodeError>(
            (o, (pre.len() + enc_opt_str(o).len()) as int),
        ),
{
    match o {
        None => {
            lemma_p_u8_at(s, pre, 0u8, suf);
        },
        Some(t) => {
            assert(s =~= pre + seq![1u8] + (enc_lpstr(t) + suf));
            lemma_p_u8_at(s, pre, 1u8, enc_lpstr(t) + suf);
            assert(s =~= (pre + seq![1u8]) + enc_lpstr(t) + suf);
            lemma_p_lpstr_at(s, pre + seq![1u8], t, suf);
            assert((pre + seq![1u8]).len() == pre.len() + 1);
            lemma_le_bytes_len(t.len(), 8);
        },
    }
}

proof fn lemma_p_arg_at(s: Seq<u8>, pre: Seq<u8>, a: ArgV, suf: Seq<u8>)
    requires
        wf_arg(a),
        s == pre + enc_arg(a) + suf,
    ensures
        p_arg(s, pre.len() as int) == Ok::<(ArgV, int), DecodeError>(
            (a, (pre.len() + enc_arg(a).len()) as int),
        ),
{
    match a {
        ArgV::Str(t) => {
            assert(s =~= pre + seq![1u8] + (enc_lpstr(t) + suf));
            lemma_p_u8_at(s, pre, 1u8, enc_lpstr(t) + suf);
            assert(s =~= (pre + seq![1u8]) + enc_lpstr(t) + suf);
            lemma_p_lpstr_at(s, pre + seq![1u8], t, suf);
            assert((pre + seq![1u8]).len() == pre.len() + 1);
            lemma_le_bytes_len(t.len(), 8);
        },
        ArgV::U64(x) => {
            lemma_le_bytes_len(x as nat, 8);
            assert(s =~= pre + seq![2u8] + (le_bytes(x as nat, 8) + suf));
            lemma_p_u8_at(s, pre, 2u8, le_bytes(x as nat, 8) + suf);
            assert(s =~= (pre + seq![2u8]) + le_bytes(x as nat, 8) + suf);
            lemma_p_u64_at(s, pre + seq![2u8], x, suf);
            assert((pre + seq![2u8]).len() == pre.len() + 1);
        },
        ArgV::Bool(b) => {
            let fb = flag_byte(b);
            assert(seq![3u8, fb] =~= seq![3u8] + seq![fb]);
            assert(s =~= pre + seq![3u8] + (seq![fb] + suf));
            lemma_p_u8_at(s, pre, 3u8, seq![fb] + suf);
            assert(s =~= (pre + seq![3u8]) + seq![fb] + suf);
            lemma_p_u8_at(s, pre + seq![3u8], fb, suf);
            assert((pre + seq![3u8]).len() == pre.len() + 1);
        },
    }
}

proof fn lemma_p_args_at(s: Seq<u8>, pre: Seq<u8>, args: Seq<ArgV>, suf: Seq<u8>)
    requires
        forall|i: int| 0 <= i < args.len() ==> wf_arg(#[trigger] args[i]),
        s == pre + enc_args(args) + suf,
    ensures
        p_args(s, pre.len() as int, args.len()) == Ok::<(Seq<ArgV>, int), DecodeError>(
            (args, (pre.len() + enc_args(args).len()) as int),
        ),
    decreases args.len(),
{
    if args.len() == 0 {
        assert(p_args(s, pre.len() as int, 0) == Ok::<(Seq<ArgV>, int), DecodeError>(
            (Seq::empty(), pre.len() as int),
        ));
        assert(args =~= Seq::<ArgV>::empty());
        assert(enc_args(args).len() == 0);
    } else {
        let a0 = args[0];
        let rest = args.drop_first();
        assert(enc_args(args) == enc_arg(a0) + enc_args(rest));
        assert(s =~= pre + enc_arg(a0) + (enc_args(rest) + suf));
        lemma_p_arg_at(s, pre, a0, enc_args(rest) + suf);
        let pre1 = pre + enc_arg(a0);
        assert(s =~= pre1 + enc_args(rest) + suf);
        assert forall|i: int| 0 <= i < rest.len() implies wf_arg(#[trigger] rest[i]) by {
            assert(rest[i] == args[i + 1]);
        }
        lemma_p_args_at(s, pre1, rest, suf);
        assert(rest.len() == args.len() - 1);
        assert(seq![a0] + rest =~= args);
        assert(pre1.len() + enc_args(rest).len() == pre.len() + enc_args(args).len());
    }
}

/// Re-brackets a concatenation: the prefix absorbs the next piece.
proof fn lemma_shift(s: Seq<u8>, pre: Seq<u8>, x: Seq<u8>, rest: Seq<u8>)
    requires
        s == pre + (x + rest),
    ensures
        s == pre + x + rest,
{
    assert(pre + x + rest =~= pre + (x + rest));
}

/// Finishing step of the round-trip proof: once every header and body
/// piece is known to parse back to the matching field of `m`, the
/// decoder's layers compose to return `m`.
#[verifier::rlimit(100)]
proof fn lemma_decode_finish(
    s: Seq<u8>,
    m: MessageV,
    i1: int,
    i2: int,
    i3: int,
    i4: int,
    i5: int,
    i6: int,
    i7: int,
    i8: int,
    i9: int,
    i10: int,
    i11: int,
    i12: int,
    blen: u64,
    cnt: u64,
)
    requires
        wf_message(m),
        p_u8(s, 0) == Ok::<(u8, int), DecodeError>((kind_code(m.kind), i1)),
        p_u64(s, i1) == Ok::<(u64, int), DecodeError>((m.serial, i2)),
        p_u8(s, i2) == Ok::<(u8, int), DecodeError>((flag_byte(m.no_reply), i3)),
        p_opt_u64(s, i3) == Ok::<(Option<u64>, int), DecodeError>((m.reply_serial, i4)),
        p_opt_str(s, i4) == Ok::<(Option<Seq<u8>>, int), DecodeError>((m.path, i5)),
        p_opt_str(s, i5) == Ok::<(Option<Seq<u8>>, int), DecodeError>((m.interface, i6)),
        p_opt_str(s, i6) == Ok::<(Option<Seq<u8>>, int), DecodeError>((m.member, i7)),
        p_opt_str(s, i7) == Ok::<(Option<Seq<u8>>, int), DecodeError>((m.destination, i8)),
        p_opt_str(s, i8) == Ok::<(Option<Seq<u8>>, int), DecodeError>((m.sender, i9)),
        p_opt_str(s, i9) == Ok::<(Option<Seq<u8>>, int), DecodeError>((m.error_name, i10)),
        p_u64(s, i10) == Ok::<(u64, int), DecodeError>((blen, i11)),
        s.len() - i11 == blen,
        p_u64(s, i11) == Ok::<(u64, int), DecodeError>((cnt, i12)),
        cnt as nat == m.body.len(),
        p_args(s, i12, cnt as nat) == Ok::<(Seq<ArgV>, int), DecodeError>(
            (m.body, s.len() as int),
        ),
    ensures
        spec_decode(s) == Ok::<MessageV, DecodeError>(m),
{
    let h0 = MessageV {
        kind: m.kind,
        serial: 0,
        no_reply: false,
        reply_serial: None,
        path: None,
        interface: None,
        member: None,
        destination: None,
        sender: None,
        error_name: None,
        body: Seq::empty(),
    };
    let h1 = MessageV { serial: m.serial, ..h0 };
    let h2 = MessageV { no_reply: m.no_reply, ..h1 };
    let h3 = MessageV { reply_serial: m.reply_serial, ..h2 };
    let h4 = MessageV { path: m.path, ..h3 };
    let h5 = MessageV { interface: m.interface, ..h4 };
    let h6 = MessageV { member: m.member, ..h5 };
    let h7 = MessageV { destination: m.destination, ..h6 };
    let h8 = MessageV { sender: m.sender, ..h7 };
    let h9 = MessageV { error_name: m.error_name, ..h8 };
    assert(spec_decode_body(s, i10, h9) == Ok::<MessageV, DecodeError>(m)) by {
        assert(MessageV { body: m.body, ..h9 } =~= m);
        assert(check_shape(m) == Ok::<MessageV, DecodeError>(m));
    }
    assert(sd_error_name(s, i9, h8) == Ok::<MessageV, DecodeError>(m)) by {
        assert(MessageV { error_name: m.error_name, ..h8 } == h9);
    }
    assert(sd_sender(s, i8, h7) == Ok::<MessageV, DecodeError>(m)) by {
        assert(MessageV { sender: m.sender, ..h7 } == h8);
    }
    assert(sd_destination(s, i7, h6) == Ok::<MessageV, DecodeError>(m)) by {
        assert(MessageV { destination: m.destination, ..h6 } == h7);
    }
    assert(sd_member(s, i6, h5) == Ok::<MessageV, DecodeError>(m)) by {
        assert(MessageV { member: m.member, ..h5 } == h6);
    }
    assert(sd_interface(s, i5, h4) == Ok::<MessageV, DecodeError>(m)) by {
        assert(MessageV { interface: m.interface, ..h4 } == h5);
    }
    assert(sd_path(s, i4, h3) == Ok::<MessageV, DecodeError>(m)) by {
        assert(MessageV { path: m.path, ..h3 } == h4);
    }
    assert(sd_reply_serial(s, i3, h2) == Ok::<MessageV, DecodeError>(m)) by {
        assert(MessageV { reply_serial: m.reply_serial, ..h2 } == h3);
    }
    assert(sd_flags(s, i2, h1) == Ok::<MessageV, DecodeError>(m)) by {
        assert(flag_byte(m.no_reply) == 0 || flag_byte(m.no_reply) == 1);
        assert((flag_byte(m.no_reply) == 1) == m.no_reply);
        assert(MessageV { no_reply: m.no_reply, ..h1 } == h2);
    }
    assert(sd_serial(s, i1, h0) == Ok::<MessageV, DecodeError>(m)) by {
        assert(MessageV { serial: m.serial, ..h0 } == h1);
    }
    assert(code_kind(kind_code(m.kind)) == Some(m.kind));
}

/// Offsets of the fields inside an encoded frame: the reply serial
/// begins at byte 10; each later field begins where the previous ends.
pub open spec fn off_path(m: MessageV) -> int {
    10 + enc_opt_u64(m.reply_serial).len() as int
}

pub open spec fn off_interface(m: MessageV) -> int {
    off_path(m) + enc_opt_str(m.path).len() as int
}

pub open spec fn off_member(m: MessageV) -> int {
    off_interface(m) + enc_opt_str(m.interface).len() as int
}

pub open spec fn off_destination(m: MessageV) -> int {
    off_member(m) + enc_opt_str(m.member).len() as int
}

pub open spec fn off_sender(m: MessageV) -> int {
    off_destination(m) + enc_opt_str(m.destination).len() as int
}

pub open spec fn off_error_name(m: MessageV) -> int {
    off_sender(m) + enc_opt_str(m.sender).len() as int
}

pub open spec fn off_body(m: MessageV) -> int {
    off_error_name(m) + enc_opt_str(m.error_name).len() as int
}

/// Piece `k` of an encoded frame, in encoding order: the kind byte,
/// the serial, the flags byte, the reply serial, the six header
/// strings, the body byte length, the argument count, the arguments.
pub open spec fn frame_piece(m: MessageV, k: int) -> Seq<u8> {
    if k == 0 {
        seq![kind_code(m.kind)]
    } else if k == 1 {
        le_bytes(m.serial as nat, 8)
    } else if k == 2 {
        seq![flag_byte(m.no_reply)]
    } else if k == 3 {
        enc_opt_u64(m.reply_serial)
    } else if k == 4 {
        enc_opt_str(m.path)
    } else if k == 5 {
        enc_opt_str(m.interface)
    } else if k == 6 {
        enc_opt_str(m.member)
    } else if k == 7 {
        enc_opt_str(m.destination)
    } else if k == 8 {
        enc_opt_str(m.sender)
    } else if k == 9 {
        enc_opt_str(m.error_name)
    } else if k == 10 {
        le_bytes(enc_body(m.body).len(), 8)
    } else if k == 11 {
        le_bytes(m.body.len(), 8)
    } else {
        enc_args(m.body)
    }
}

/// The concatenation of pieces `0 .. k`.
pub open spec fn frame_prefix(m: MessageV, k: int) -> Seq<u8>
    decreases k,
{
    if k <= 0 {
        Seq::empty()
    } else {
        frame_prefix(m, k - 1) + frame_piece(m, k - 1)
    }
}

/// The concatenation of pieces `k ..` (a frame has 13 pieces).
pub open spec fn frame_suffix(m: MessageV, k: int) -> Seq<u8>
    decreases 13 - k,
{
    if k >= 13 {
        Seq::empty()
    } else {
        frame_piece(m, k) + frame_suffix(m, k + 1)
    }
}

/// Delivers the field offsets and parse positions once: at every
/// piece the frame splits into the pieces before, the piece, and the
/// pieces after, and each prefix length is the matching field offset.
proof fn lemma_frame_decomposition(m: MessageV)
    ensures
        forall|k: int|
            0 <= k < 13 ==> spec_encode(m) == #[trigger] frame_prefix(m, k) + frame_piece(m, k)
                + frame_suffix(m, k + 1),
        frame_prefix(m, 0).len() == 0,
        frame_prefix(m, 1).len() == 1,
        frame_prefix(m, 2).len() == 9,
        frame_prefix(m, 3).len() == 10,
        frame_prefix(m, 4).len() == off_path(m),
        frame_prefix(m, 5).len() == off_interface(m),
        frame_prefix(m, 6).len() == off_member(m),
        frame_prefix(m, 7).len() == off_destination(m),
        frame_prefix(m, 8).len() == off_sender(m),
        frame_prefix(m, 9).len() == off_error_name(m),
        frame_prefix(m, 10).len() == off_body(m),
        frame_prefix(m, 11).len() == off_body(m) + 8,
        frame_prefix(m, 12).len() == off_body(m) + 16,
        frame_suffix(m, 13).len() == 0,
        spec_encode(m).len() == off_body(m) + 16 + enc_args(m.body).len(),
{
    let s = spec_encode(m);
    lemma_le_bytes_len(m.serial as nat, 8);
    lemma_le_bytes_len(enc_body(m.body).len(), 8);
    lemma_le_bytes_len(m.body.len(), 8);
    // the encoding is the right-associated concatenation of the pieces
    assert(frame_suffix(m, 13) =~= Seq::<u8>::empty());
    assert(frame_suffix(m, 12) == frame_piece(m, 12) + frame_suffix(m, 13));
    assert(frame_suffix(m, 11) == frame_piece(m, 11) + frame_suffix(m, 12));
    assert(frame_suffix(m, 10) == frame_piece(m, 10) + frame_suffix(m, 11));
    assert(frame_suffix(m, 9) == frame_piece(m, 9) + frame_suffix(m, 10));
    assert(frame_suffix(m, 8) == frame_piece(m, 8) + frame_suffix(m, 9));
    assert(frame_suffix(m, 7) == frame_piece(m, 7) + frame_suffix(m, 8));
    assert(frame_suffix(m, 6) == frame_piece(m, 6) + frame_suffix(m, 7));
    assert(frame_suffix(m, 5) == frame_piece(m, 5) + frame_suffix(m, 6));
    assert(frame_suffix(m, 4) == frame_piece(m, 4) + frame_suffix(m, 5));
    assert(frame_suffix(m, 3) == frame_piece(m, 3) + frame_suffix(m, 4));
    assert(frame_suffix(m, 2) == frame_piece(m, 2) + frame_suffix(m, 3));
    assert(frame_suffix(m, 1) == frame_piece(m, 1) + frame_suffix(m, 2));
    assert(frame_suffix(m, 0) == frame_piece(m, 0) + frame_suffix(m, 1));
    assert(enc_body(m.body) == frame_piece(m, 11) + frame_piece(m, 12));
    assert(frame_suffix(m, 11) == enc_body(m.body)) by {
        assert(frame_piece(m, 11) + (frame_piece(m, 12) + Seq::<u8>::empty()) =~= frame_piece(
            m,
            11,
        ) + frame_piece(m, 12));
    }
    assert(s == frame_suffix(m, 0));
    // walk the frame, one piece at a time
    assert(s =~= frame_prefix(m, 0) + frame_suffix(m, 0));
    lemma_shift(s, frame_prefix(m, 0), frame_piece(m, 0), frame_suffix(m, 1));
    lemma_shift(s, frame_prefix(m, 1), frame_piece(m, 1), frame_suffix(m, 2));
    lemma_shift(s, frame_prefix(m, 2), frame_piece(m, 2), frame_suffix(m, 3));
    lemma_shift(s, frame_prefix(m, 3), frame_piece(m, 3), frame_suffix(m, 4));
    lemma_shift(s, frame_prefix(m, 4), frame_piece(m, 4), frame_suffix(m, 5));
    lemma_shift(s, frame_prefix(m, 5), frame_piece(m, 5), frame_suffix(m, 6));
    lemma_shift(s, frame_prefix(m, 6), frame_piece(m, 6), frame_suffix(m, 7));
    lemma_shift(s, frame_prefix(m, 7), frame_piece(m, 7), frame_suffix(m, 8));
    lemma_shift(s, frame_prefix(m, 8), frame_piece(m, 8), frame_suffix(m, 9));
    lemma_shift(s, frame_prefix(m, 9), frame_piece(m, 9), frame_suffix(m, 10));
    lemma_shift(s, frame_prefix(m, 10), frame_piece(m, 10), frame_suffix(m, 11));
    lemma_shift(s, frame_prefix(m, 11), frame_piece(m, 11), frame_suffix(m, 12));
    lemma_shift(s, frame_prefix(m, 12), frame_piece(m, 12), frame_suffix(m, 13));
    assert(s.len() == frame_prefix(m, 12).len() + frame_piece(m, 12).len()) by {
        assert(s =~= frame_prefix(m, 12) + frame_piece(m, 12));
    }
}

/// The first half of the header fields (kind byte through path)
/// parse back to the fields of `m` they were encoded from.
#[verifier::rlimit(100)]
proof fn lemma_header_facts_a(m: MessageV)
    requires
        wf_frame(m),
    ensures
        p_u8(spec_encode(m), 0) == Ok::<(u8, int), DecodeError>((kind_code(m.kind), 1)),
        p_u64(spec_encode(m), 1) == Ok::<(u64, int), DecodeError>((m.serial, 9)),
        p_u8(spec_encode(m), 9) == Ok::<(u8, int), DecodeError>((flag_byte(m.no_reply), 10)),
        p_opt_u64(spec_encode(m), 10) == Ok::<(Option<u64>, int), DecodeError>(
            (m.reply_serial, off_path(m)),
        ),
        p_opt_str(spec_encode(m), off_path(m)) == Ok::<(Option<Seq<u8>>, int), DecodeError>(
            (m.path, off_interface(m)),
        ),
{
    let s = spec_encode(m);
    lemma_frame_decomposition(m);
    lemma_p_u8_at(s, frame_prefix(m, 0), kind_code(m.kind), frame_suffix(m, 1));
    lemma_p_u64_at(s, frame_prefix(m, 1), m.serial, frame_suffix(m, 2));
    lemma_p_u8_at(s, frame_prefix(m, 2), flag_byte(m.no_reply), frame_suffix(m, 3));
    lemma_p_opt_u64_at(s, frame_prefix(m, 3), m.reply_serial, frame_suffix(m, 4));
    lemma_p_opt_str_at(s, frame_prefix(m, 4), m.path, frame_suffix(m, 5));
}

/// The second half of the header fields (interface through error
/// name) parse back to the fields of `m` they were encoded from.
#[verifier::rlimit(100)]
proof fn lemma_header_facts_b(m: MessageV)
    requires
        wf_frame(m),
    ensures
        p_opt_str(spec_encode(m), off_interface(m)) == Ok::<(Option<Seq<u8>>, int), DecodeError>(
            (m.interface, off_member(m)),
        ),
        p_opt_str(spec_encode(m), off_member(m)) == Ok::<(Option<Seq<u8>>, int), DecodeError>(
            (m.member, off_destination(m)),
        ),
        p_opt_str(spec_encode(m), off_destination(m)) == Ok::<
            (Option<Seq<u8>>, int),
            DecodeError,
        >((m.destination, off_sender(m))),
        p_opt_str(spec_encode(m), off_sender(m)) == Ok::<(Option<Seq<u8>>, int), DecodeError>(
            (m.sender, off_error_name(m)),
        ),
        p_opt_str(spec_encode(m), off_error_name(m)) == Ok::<(Option<Seq<u8>>, int), DecodeError>(
            (m.error_name, off_body(m)),
        ),
{
    let s = spec_encode(m);
    lemma_frame_decomposition(m);
    lemma_p_opt_str_at(s, frame_prefix(m, 5), m.interface, frame_suffix(m, 6));
    lemma_p_opt_str_at(s, frame_prefix(m, 6), m.member, frame_suffix(m, 7));
    lemma_p_opt_str_at(s, frame_prefix(m, 7), m.destination, frame_suffix(m, 8));
    lemma_p_opt_str_at(s, frame_prefix(m, 8), m.sender, frame_suffix(m, 9));
    lemma_p_opt_str_at(s, frame_prefix(m, 9), m.error_name, frame_suffix(m, 10));
}

/// The body region of the frame parses back to the body of `m` and
/// consumes the frame exactly.
#[verifier::rlimit(100)]
proof fn lemma_body_facts(m: MessageV)
    requires
        wf_frame(m),
    ensures
        p_u64(spec_encode(m), off_body(m)) == Ok::<(u64, int), DecodeError>(
            (enc_body(m.body).len() as u64, off_body(m) + 8),
        ),
        spec_encode(m).len() - (off_body(m) + 8) == enc_body(m.body).len(),
        p_u64(spec_encode(m), off_body(m) + 8) == Ok::<(u64, int), DecodeError>(
            (m.body.len() as u64, off_body(m) + 16),
        ),
        p_args(spec_encode(m), off_body(m) + 16, m.body.len()) == Ok::<
            (Seq<ArgV>, int),
            DecodeError,
        >((m.body, spec_encode(m).len() as int)),
{
    lemma_pow256_8();
    let s = spec_encode(m);
    lemma_frame_decomposition(m);
    lemma_le_bytes_len(enc_body(m.body).len(), 8);
    lemma_le_bytes_len(m.body.len(), 8);
    let blen = enc_body(m.body).len() as u64;
    assert(blen as nat == enc_body(m.body).len());
    assert(frame_piece(m, 10) == le_bytes(blen as nat, 8));
    lemma_p_u64_at(s, frame_prefix(m, 10), blen, frame_suffix(m, 11));
    let cnt = m.body.len() as u64;
    assert(cnt as nat == m.body.len());
    assert(frame_piece(m, 11) == le_bytes(cnt as nat, 8));
    lemma_p_u64_at(s, frame_prefix(m, 11), cnt, frame_suffix(m, 12));
    assert(frame_suffix(m, 13) =~= Seq::<u8>::empty());
    lemma_p_args_at(s, frame_prefix(m, 12), m.body, frame_suffix(m, 13));
}

/// Round-trip fidelity: decoding the encoding of any well-formed
/// message gives that message back, for every kind and argument type.
pub proof fn lemma_decode_encode(m: MessageV)
    requires
        wf_frame(m),
    ensures
        spec_decode(spec_encode(m)) == Ok::<MessageV, DecodeError>(m),
{
    lemma_pow256_8();
    lemma_header_facts_a(m);
    lemma_header_facts_b(m);
    lemma_body_facts(m);
    let cnt = m.body.len() as u64;
    assert(cnt as nat == m.body.len());
    lemma_decode_finish(
        spec_encode(m),
        m,
        1,
        9,
        10,
        off_path(m),
        off_interface(m),
        off_member(m),
        off_destination(m),
        off_sender(m),
        off_error_name(m),
        off_body(m),
        off_body(m) + 8,
        off_body(m) + 16,
        enc_body(m.body).len() as u64,
        cnt,
    );
}

} // verus!
