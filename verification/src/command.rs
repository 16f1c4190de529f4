//! The command model: an address pattern plus an ordered list of typed
//! arguments, with encoding to and decoding from the wire format.

use vstd::prelude::*;
use vstd::utf8::*;

use crate::error::Error;
use crate::wire;
use crate::wire::{
    be32_bytes, be32_value, i32_bits, i32_of_bits, no_nul, pad_len, padded, str_block,
};

verus! {

/// A typed command argument. Each variant maps to exactly one ASCII tag
/// character: string to 's', integer to 'i', float to 'f', binary to 'b'.
///
/// A float is carried as the 32 bits of its IEEE-754 representation, exactly
/// what travels on the wire.
#[derive(Debug, Clone, PartialEq)]
pub enum Argument {
    String(String),
    Integer(i32),
    Float(u32),
    Binary(Vec<u8>),
}

/// The mathematical value of an [`Argument`].
#[verifier::ext_equal]
pub enum ArgumentView {
    Text(Seq<char>),
    Int(i32),
    FloatBits(u32),
    Bytes(Seq<u8>),
}

impl View for Argument {
    type V = ArgumentView;

    open spec fn view(&self) -> ArgumentView {
        match self {
            Argument::String(s) => ArgumentView::Text(s@),
            Argument::Integer(v) => ArgumentView::Int(*v),
            Argument::Float(bits) => ArgumentView::FloatBits(*bits),
            Argument::Binary(d) => ArgumentView::Bytes(d@),
        }
    }
}

/// A command: an address pattern naming a target, and the arguments sent to
/// it. The wire encoding carries one tag character per argument, in order.
#[derive(Debug, Clone, PartialEq)]
pub struct Command {
    pub address_pattern: String,
    pub arguments: Vec<Argument>,
}

/// The mathematical value of a [`Command`].
#[verifier::ext_equal]
pub struct CommandView {
    pub address: Seq<char>,
    pub args: Seq<ArgumentView>,
}

/// The views of the arguments held by an executable vector.
pub open spec fn args_view(v: Seq<Argument>) -> Seq<ArgumentView> {
    Seq::new(v.len(), |i: int| v[i]@)
}

impl View for Command {
    type V = CommandView;

    open spec fn view(&self) -> CommandView {
        CommandView { address: self.address_pattern@, args: args_view(self.arguments@) }
    }
}

/// True when an argument can be carried by the wire format: strings hold no
/// null character, and a binary payload's length fits its 32-bit prefix.
pub open spec fn arg_valid(a: ArgumentView) -> bool {
    match a {
        ArgumentView::Text(s) => no_nul(s),
        ArgumentView::Int(_) => true,
        ArgumentView::FloatBits(_) => true,
        ArgumentView::Bytes(d) => d.len() <= u32::MAX,
    }
}

/// True when a command can be carried by the wire format.
pub open spec fn command_valid(c: CommandView) -> bool {
    &&& no_nul(c.address)
    &&& forall|i: int| 0 <= i < c.args.len() ==> arg_valid(#[trigger] c.args[i])
}

/// The tag character of an argument.
pub open spec fn tag_char(a: ArgumentView) -> char {
    match a {
        ArgumentView::Text(_) => 's',
        ArgumentView::Int(_) => 'i',
        ArgumentView::FloatBits(_) => 'f',
        ArgumentView::Bytes(_) => 'b',
    }
}

/// The tag characters of an argument list, in order.
pub open spec fn tag_chars(args: Seq<ArgumentView>) -> Seq<char> {
    args.map_values(|a: ArgumentView| tag_char(a))
}

/// The unpadded wire bytes of one argument: string bytes with their null
/// terminator, a big-endian 32-bit number, or a length-prefixed binary
/// payload. Alignment padding is applied once per argument by the command
/// encoder, not here.
pub open spec fn arg_bytes(a: ArgumentView) -> Seq<u8> {
    match a {
        ArgumentView::Text(s) => encode_utf8(s).push(0),
        ArgumentView::Int(v) => be32_bytes(i32_bits(v)),
        ArgumentView::FloatBits(bits) => be32_bytes(bits),
        ArgumentView::Bytes(d) => be32_bytes(d.len() as u32) + d,
    }
}

/// The wire bytes of an argument list: each argument's bytes grown to a
/// multiple of four by alignment padding.
pub open spec fn args_bytes(args: Seq<ArgumentView>) -> Seq<u8>
    decreases args.len(),
{
    if args.len() == 0 {
        Seq::empty()
    } else {
        padded(arg_bytes(args[0])) + args_bytes(args.drop_first())
    }
}

/// The full wire encoding of a command: the address string's block, the
/// type-tag block (a comma, one tag character per argument, a terminator and
/// padding, treated as one string-like unit), then the padded arguments.
pub open spec fn spec_encode(c: CommandView) -> Seq<u8> {
    str_block(c.address) + str_block(seq![','] + tag_chars(c.args)) + args_bytes(c.args)
}

/// The cursor advanced to the next multiple-of-four boundary.
pub open spec fn align_up(pos: int) -> int {
    pos + pad_len(pos)
}

/// What decoding one argument of the type named by `tag` from `b` at `pos`
/// yields. A string argument consumes its own padding; the others leave the
/// alignment skip to the per-argument step of the command decoder.
pub open spec fn spec_decode_arg(tag: char, b: Seq<u8>, pos: int) -> Result<
    (ArgumentView, int),
    Error,
>
    recommends
        0 <= pos <= b.len(),
{
    if tag == 's' {
        match wire::spec_decode_string(b, pos) {
            Ok(sp) => Ok((ArgumentView::Text(sp.0), sp.1)),
            Err(e) => Err(e),
        }
    } else if tag == 'i' {
        if pos + 4 > b.len() {
            Err(Error::TruncatedBuffer)
        } else {
            Ok((ArgumentView::Int(i32_of_bits(be32_value(b.subrange(pos, pos + 4)))), pos + 4))
        }
    } else if tag == 'f' {
        if pos + 4 > b.len() {
            Err(Error::TruncatedBuffer)
        } else {
            Ok((ArgumentView::FloatBits(be32_value(b.subrange(pos, pos + 4))), pos + 4))
        }
    } else if tag == 'b' {
        if pos + 4 > b.len() {
            Err(Error::TruncatedBuffer)
        } else {
            let n = be32_value(b.subrange(pos, pos + 4)) as int;
            if pos + 4 + n > b.len() {
                Err(Error::TruncatedBuffer)
            } else {
                Ok((ArgumentView::Bytes(b.subrange(pos + 4, pos + 4 + n)), pos + 4 + n))
            }
        }
    } else {
        Err(Error::UnsupportedType(tag))
    }
}

/// What decoding one argument per tag character yields: the argument list
/// and the final cursor. After every argument the cursor skips to the next
/// multiple-of-four boundary, symmetric with the padding the encoder writes.
pub open spec fn spec_decode_args(tags: Seq<char>, b: Seq<u8>, pos: int) -> Result<
    (Seq<ArgumentView>, int),
    Error,
>
    decreases tags.len(),
{
    if tags.len() == 0 {
        Ok((Seq::empty(), pos))
    } else {
        match spec_decode_arg(tags[0], b, pos) {
            Err(e) => Err(e),
            Ok(ap) => {
                let after = align_up(ap.1);
                if after > b.len() {
                    Err(Error::TruncatedBuffer)
                } else {
                    match spec_decode_args(tags.drop_first(), b, after) {
                        Err(e) => Err(e),
                        Ok(rp) => Ok((seq![ap.0] + rp.0, rp.1)),
                    }
                }
            },
        }
    }
}

/// What decoding a whole buffer yields: the address string, then the
/// type-tag block, whose first character must be a comma and whose remaining
/// characters drive the argument decoding.
pub open spec fn spec_decode(b: Seq<u8>) -> Result<CommandView, Error> {
    match wire::spec_decode_string(b, 0) {
        Err(e) => Err(e),
        Ok(ap) => match wire::spec_decode_string(b, ap.1) {
            Err(e) => Err(e),
            Ok(tp) => {
                if tp.0.len() == 0 || tp.0[0] != ',' {
                    Err(Error::MalformedMessage)
                } else {
                    match spec_decode_args(tp.0.drop_first(), b, tp.1) {
                        Err(e) => Err(e),
                        Ok(rp) => Ok(CommandView { address: ap.0, args: rp.0 }),
                    }
                }
            },
        },
    }
}

/// Advances the cursor past the alignment padding that follows an argument.
fn skip_padding(buf: &[u8], pos: usize) -> (r: Result<usize, Error>)
    requires
        pos <= buf@.len(),
    ensures
        match r {
            Ok(next) => next as int == align_up(pos as int) && pos <= next <= buf@.len(),
            Err(e) => e == Error::TruncatedBuffer && align_up(pos as int) > buf@.len(),
        },
{
    let r: usize = pos % 4;
    if r == 0 {
        Ok(pos)
    } else {
        let need: usize = 4 - r;
        if buf.len() - pos < need {
            Err(Error::TruncatedBuffer)
        } else {
            Ok(pos + need)
        }
    }
}

/// Appending one more argument to a prefix of the list appends its padded
/// bytes to the prefix's encoding.
proof fn lemma_args_bytes_take(args: Seq<ArgumentView>, i: int)
    requires
        0 <= i < args.len(),
    ensures
        args_bytes(args.take(i + 1)) == args_bytes(args.take(i)) + padded(arg_bytes(args[i])),
    decreases i,
{
    if i == 0 {
        assert(args.take(1) =~= seq![args[0]]);
        assert(args.take(1).drop_first() =~= Seq::<ArgumentView>::empty());
        assert(args.take(0) =~= Seq::<ArgumentView>::empty());
        assert(args_bytes(args.take(1)) =~= args_bytes(args.take(0)) + padded(arg_bytes(args[0])));
    } else {
        let dp = args.drop_first();
        lemma_args_bytes_take(dp, i - 1);
        assert(args.take(i + 1).drop_first() =~= dp.take(i));
        assert(args.take(i).drop_first() =~= dp.take(i - 1));
        assert(args.take(i + 1)[0] == args[0]);
        assert(args.take(i)[0] == args[0]);
        assert(dp[i - 1] == args[i]);
        assert(args_bytes(args.take(i + 1)) == padded(arg_bytes(args[0])) + (args_bytes(
            dp.take(i - 1),
        ) + padded(arg_bytes(args[i]))));
        assert(padded(arg_bytes(args[0])) + (args_bytes(dp.take(i - 1)) + padded(
            arg_bytes(args[i]),
        )) =~= (padded(arg_bytes(args[0])) + args_bytes(dp.take(i - 1))) + padded(
            arg_bytes(args[i]),
        ));
    }
}

/// Every region of `args_bytes` is padded, so its length is a multiple of
/// four.
pub proof fn lemma_args_bytes_aligned(args: Seq<ArgumentView>)
    ensures
        args_bytes(args).len() % 4 == 0,
    decreases args.len(),
{
    if args.len() > 0 {
        wire::lemma_padded_len(arg_bytes(args[0]));
        lemma_args_bytes_aligned(args.drop_first());
    }
}

/// The tag bytes of an argument list, one byte per argument.
pub open spec fn tag_bytes(args: Seq<ArgumentView>) -> Seq<u8> {
    args.map_values(|a: ArgumentView| tag_char(a) as u8)
}

/// The characters of the type-tag block are ASCII, so its UTF-8 bytes are
/// the comma byte followed by one tag byte per argument.
proof fn lemma_tag_block_bytes(args: Seq<ArgumentView>)
    ensures
        encode_utf8(seq![','] + tag_chars(args)) == seq![44u8] + tag_bytes(args),
{
    let chars = seq![','] + tag_chars(args);
    assert forall|i: int| 0 <= i < chars.len() implies '\0' <= #[trigger] chars[i] <= '\u{7f}' by {
        if i == 0 {
            assert(chars[0] == ',');
        } else {
            assert(chars[i] == tag_char(args[i - 1]));
        }
    }
    assert(is_ascii_chars(chars));
    is_ascii_chars_encode_utf8(chars);
    assert forall|i: int| 0 <= i < chars.len() implies encode_utf8(chars)[i] == (seq![44u8]
        + tag_bytes(args))[i] by {
        assert(encode_utf8(chars)[i] == chars[i] as u8);
        if i == 0 {
            assert(chars[0] == ',');
        } else {
            assert(chars[i] == tag_char(args[i - 1]));
            assert(tag_bytes(args)[i - 1] == tag_char(args[i - 1]) as u8);
        }
    }
    assert(encode_utf8(chars) =~= seq![44u8] + tag_bytes(args));
}

impl Command {
    /// Encodes the command to `buf`: the address string's block, the
    /// type-tag block, then each argument followed by alignment padding.
    /// The buffer's length must be a multiple of four, as a fresh buffer's
    /// is; the appended bytes are exactly the command's wire encoding.
    #[verifier::loop_isolation(false)]
    #[verifier::rlimit(60)]
    pub fn encode(&self, buf: &mut Vec<u8>)
        requires
            command_valid(self@),
            old(buf)@.len() % 4 == 0,
        ensures
            final(buf)@ == old(buf)@ + spec_encode(self@),
    {
        let ghost c = self@;
        let ghost base = old(buf)@;

        // Address pattern.
        wire::encode_string(self.address_pattern.as_str(), buf);
        proof {
            wire::lemma_padded_concat(base, encode_utf8(c.address).push(0));
            wire::lemma_padded_len(encode_utf8(c.address).push(0));
        }
        let ghost after_addr = buf@;

        // Type-tag block.
        buf.push(44);
        let n = self.arguments.len();
        let mut i: usize = 0;
        while i < n
            invariant
                i <= n,
                buf@ == after_addr.push(44u8) + tag_bytes(c.args).take(i as int),
            decreases n - i,
        {
            let t = self.arguments[i].tag();
            buf.push(t);
            proof {
                assert(c.args[i as int] == self.arguments@[i as int]@);
                assert(tag_bytes(c.args).take(i + 1) =~= tag_bytes(c.args).take(i as int).push(
                    tag_char(c.args[i as int]) as u8,
                ));
                assert(buf@ =~= after_addr.push(44u8) + tag_bytes(c.args).take(i + 1));
            }
            i = i + 1;
        }
        buf.push(0);
        wire::pad(buf);
        proof {
            assert(tag_bytes(c.args).take(n as int) =~= tag_bytes(c.args));
            lemma_tag_block_bytes(c.args);
            assert((after_addr.push(44u8) + tag_bytes(c.args)).push(0u8) =~= after_addr
                + encode_utf8(seq![','] + tag_chars(c.args)).push(0u8));
            wire::lemma_padded_concat(after_addr, encode_utf8(seq![','] + tag_chars(c.args)).push(0));
            wire::lemma_padded_len(encode_utf8(seq![','] + tag_chars(c.args)).push(0));
        }
        let ghost header = buf@;

        // Arguments, each padded to a multiple of four bytes.
        let mut j: usize = 0;
        while j < n
            invariant
                j <= n,
                buf@ == header + args_bytes(c.args.take(j as int)),
            decreases n - j,
        {
            proof {
                assert(arg_valid(c.args[j as int]));
                assert(c.args[j as int] == self.arguments@[j as int]@);
                lemma_args_bytes_aligned(c.args.take(j as int));
            }
            self.arguments[j].encode(buf);
            wire::pad(buf);
            proof {
                wire::lemma_padded_concat(
                    header + args_bytes(c.args.take(j as int)),
                    arg_bytes(c.args[j as int]),
                );
                lemma_args_bytes_take(c.args, j as int);
                assert((header + args_bytes(c.args.take(j as int))) + padded(
                    arg_bytes(c.args[j as int]),
                ) =~= header + args_bytes(c.args.take(j + 1)));
            }
            j = j + 1;
        }
        proof {
            assert(c.args.take(n as int) =~= c.args);
            assert(buf@ =~= base + spec_encode(c));
        }
    }

    /// Decodes a command from a buffer: the address string, the type-tag
    /// block, whose first character must be a comma, then one argument per
    /// tag character, in order. The argument count always equals the tag
    /// count, and every error is surfaced as a typed result.
    #[verifier::loop_isolation(false)]
    pub fn decode(buf: &[u8]) -> (r: Result<Command, Error>)
        ensures
            match r {
                Ok(c) => spec_decode(buf@) == Ok::<CommandView, Error>(c@),
                Err(e) => spec_decode(buf@) == Err::<CommandView, Error>(e),
            },
    {
        let (address_pattern, p1) = match wire::decode_string(buf, 0) {
            Ok(x) => x,
            Err(e) => {
                return Err(e);
            },
        };
        let (tags, p2) = match wire::decode_string(buf, p1) {
            Ok(x) => x,
            Err(e) => {
                return Err(e);
            },
        };
        let tstr = tags.as_str();
        let tlen = tstr.unicode_len();
        if tlen == 0 {
            return Err(Error::MalformedMessage);
        }
        let first = tstr.get_char(0);
        if first != ',' {
            return Err(Error::MalformedMessage);
        }
        let ghost tagseq = tags@.drop_first();
        let mut arguments: Vec<Argument> = Vec::new();
        let mut pos = p2;
        let mut i: usize = 1;
        proof {
            assert(tagseq.skip(0) =~= tagseq);
            match spec_decode_args(tagseq, buf@, p2 as int) {
                Ok(rp) => {
                    assert(args_view(arguments@) + rp.0 =~= rp.0);
                },
                Err(_) => {},
            }
        }
        while i < tlen
            invariant
                1 <= i <= tlen,
                pos <= buf@.len(),
                arguments@.len() == i - 1,
                match spec_decode_args(tagseq.skip(i as int - 1), buf@, pos as int) {
                    Ok(rp) => spec_decode_args(tagseq, buf@, p2 as int) == Ok::<
                        (Seq<ArgumentView>, int),
                        Error,
                    >((args_view(arguments@) + rp.0, rp.1)),
                    Err(e) => spec_decode_args(tagseq, buf@, p2 as int) == Err::<
                        (Seq<ArgumentView>, int),
                        Error,
                    >(e),
                },
            decreases tlen - i,
        {
            let ghost remaining = tagseq.skip(i as int - 1);
            proof {
                assert(remaining.len() > 0);
                assert(remaining[0] == tags@[i as int]);
                assert(remaining.drop_first() =~= tagseq.skip(i as int));
            }
            let tag = tstr.get_char(i);
            let (a, next) = match Argument::decode(tag, buf, pos) {
                Ok(x) => x,
                Err(e) => {
                    return Err(e);
                },
            };
            let after = match skip_padding(buf, next) {
                Ok(x) => x,
                Err(e) => {
                    return Err(e);
                },
            };
            let ghost prev_args = arguments@;
            arguments.push(a);
            proof {
                match spec_decode_args(tagseq.skip(i as int), buf@, after as int) {
                    Ok(rp) => {
                        assert(spec_decode_args(remaining, buf@, pos as int) == Ok::<
                            (Seq<ArgumentView>, int),
                            Error,
                        >((seq![a@] + rp.0, rp.1)));
                        assert(args_view(arguments@) =~= args_view(prev_args).push(a@));
                        assert(args_view(arguments@) + rp.0 =~= args_view(prev_args) + (seq![a@]
                            + rp.0));
                    },
                    Err(_) => {},
                }
            }
            pos = after;
            i = i + 1;
        }
        proof {
            assert(tagseq.skip(i as int - 1) =~= Seq::<char>::empty());
            match spec_decode_args(tagseq, buf@, p2 as int) {
                Ok(rp) => {
                    assert(args_view(arguments@) + Seq::<ArgumentView>::empty() =~= args_view(
                        arguments@,
                    ));
                },
                Err(_) => {},
            }
        }
        Ok(Command { address_pattern, arguments })
    }
}

impl Argument {
    /// Appends the argument's unpadded wire bytes to `buf`.
    pub fn encode(&self, buf: &mut Vec<u8>)
        requires
            arg_valid(self@),
        ensures
            final(buf)@ == old(buf)@ + arg_bytes(self@),
    {
        match self {
            Argument::String(s) => {
                wire::push_bytes(buf, s.as_str().as_bytes());
                buf.push(0);
                proof {
                    assert((old(buf)@ + encode_utf8(s@)).push(0) =~= old(buf)@ + encode_utf8(
                        s@,
                    ).push(0));
                }
            },
            Argument::Integer(v) => {
                let u: u32 = if *v >= 0 {
                    *v as u32
                } else {
                    ((*v as i64) + 0x100000000i64) as u32
                };
                wire::put_be32(buf, u);
            },
            Argument::Float(bits) => {
                wire::put_be32(buf, *bits);
            },
            Argument::Binary(d) => {
                wire::put_be32(buf, d.len() as u32);
                wire::push_bytes(buf, d.as_slice());
                proof {
                    assert((old(buf)@ + be32_bytes(d@.len() as u32)) + d@ =~= old(buf)@ + (
                    be32_bytes(d@.len() as u32) + d@));
                }
            },
        }
    }

    /// Decodes one argument of the type named by `tag` from `buf` at `pos`,
    /// returning the argument and the cursor past its bytes.
    pub fn decode(tag: char, buf: &[u8], pos: usize) -> (r: Result<(Argument, usize), Error>)
        requires
            pos <= buf@.len(),
        ensures
            match r {
                Ok(ap) => spec_decode_arg(tag, buf@, pos as int) == Ok::<(ArgumentView, int), Error>(
                    (ap.0@, ap.1 as int),
                ) && pos <= ap.1 <= buf@.len(),
                Err(e) => spec_decode_arg(tag, buf@, pos as int) == Err::<
                    (ArgumentView, int),
                    Error,
                >(e),
            },
    {
        if tag == 's' {
            match wire::decode_string(buf, pos) {
                Ok(sp) => Ok((Argument::String(sp.0), sp.1)),
                Err(e) => Err(e),
            }
        } else if tag == 'i' {
            if buf.len() - pos < 4 {
                Err(Error::TruncatedBuffer)
            } else {
                let u = wire::get_be32(buf, pos);
                let v: i32 = if u < 0x80000000 {
                    u as i32
                } else {
                    ((u as i64) - 0x100000000i64) as i32
                };
                Ok((Argument::Integer(v), pos + 4))
            }
        } else if tag == 'f' {
            if buf.len() - pos < 4 {
                Err(Error::TruncatedBuffer)
            } else {
                Ok((Argument::Float(wire::get_be32(buf, pos)), pos + 4))
            }
        } else if tag == 'b' {
            if buf.len() - pos < 4 {
                Err(Error::TruncatedBuffer)
            } else {
                let n = wire::get_be32(buf, pos) as usize;
                if buf.len() - (pos + 4) < n {
                    Err(Error::TruncatedBuffer)
                } else {
                    let data = vstd::slice::slice_to_vec(
                        vstd::slice::slice_subrange(buf, pos + 4, pos + 4 + n),
                    );
                    Ok((Argument::Binary(data), pos + 4 + n))
                }
            }
        } else {
            Err(Error::UnsupportedType(tag))
        }
    }

    /// Decoding one argument from its wire bytes yields the argument back,
    /// with the cursor landing so that the alignment skip reaches exactly
    /// the end of the argument's padded region.
    proof fn lemma_decode_of_bytes(a: ArgumentView, b: Seq<u8>, pos: int)
        requires
            arg_valid(a),
            0 <= pos,
            pos % 4 == 0,
            pos + padded(arg_bytes(a)).len() <= b.len(),
            b.subrange(pos, pos + padded(arg_bytes(a)).len()) == padded(arg_bytes(a)),
        ensures
            ({
                let r = spec_decode_arg(tag_char(a), b, pos);
                &&& r is Ok
                &&& r->Ok_0.0 == a
                &&& pos <= r->Ok_0.1 <= pos + padded(arg_bytes(a)).len()
                &&& align_up(r->Ok_0.1) == pos + padded(arg_bytes(a)).len()
            }),
    {
        let bytes = arg_bytes(a);
        let region = padded(bytes);
        let rlen = region.len() as int;
        wire::lemma_padded_len(bytes);
        assert forall|j: int| 0 <= j < rlen implies b[pos + j] == region[j] by {
            assert(b.subrange(pos, pos + rlen)[j] == b[pos + j]);
        }
        assert(forall|j: int| 0 <= j < bytes.len() ==> region[j] == bytes[j]);
        match a {
            ArgumentView::Text(s) => {
                assert(region == str_block(s));
                assert(b.subrange(pos, pos + rlen) == str_block(s));
                wire::lemma_decode_string_of_block(s, b, pos);
            },
            ArgumentView::Int(v) => {
                assert(b.subrange(pos, pos + 4) =~= be32_bytes(i32_bits(v)));
                wire::lemma_be32_round_trip(i32_bits(v));
                wire::lemma_i32_bits_round_trip(v);
            },
            ArgumentView::FloatBits(bits) => {
                assert(b.subrange(pos, pos + 4) =~= be32_bytes(bits));
                wire::lemma_be32_round_trip(bits);
            },
            ArgumentView::Bytes(d) => {
                let n = d.len() as int;
                assert(b.subrange(pos, pos + 4) =~= be32_bytes(d.len() as u32));
                wire::lemma_be32_round_trip(d.len() as u32);
                assert(be32_value(b.subrange(pos, pos + 4)) as int == n);
                assert forall|j: int| 0 <= j < n implies b.subrange(pos + 4, pos + 4 + n)[j]
                    == d[j] by {
                    assert(region[4 + j] == b.subrange(pos, pos + rlen)[4 + j]);
                    assert(region[4 + j] == bytes[4 + j]);
                    assert(bytes[4 + j] == d[j]);
                }
                assert(b.subrange(pos + 4, pos + 4 + n) =~= d);
                assert(align_up(pos + 4 + n) == pos + rlen) by {
                    assert((pos + 4 + n) % 4 == (4 + n) % 4) by (nonlinear_arith)
                        requires
                            pos % 4 == 0,
                            n >= 0,
                    ;
                    assert(rlen == 4 + n + pad_len(4 + n));
                }
            },
        }
    }

    /// Returns the tag byte for the argument type.
    pub fn tag(&self) -> (t: u8)
        ensures
            t == tag_char(self@) as u8,
    {
        let t: u8 = match self {
            Argument::String(_) => 115,
            Argument::Integer(_) => 105,
            Argument::Float(_) => 102,
            Argument::Binary(_) => 98,
        };
        t
    }
}

/// Decoding an argument list from its wire bytes yields the list back, with
/// the cursor at the end of the padded regions.
#[verifier::rlimit(60)]
proof fn lemma_decode_args_of_bytes(args: Seq<ArgumentView>, b: Seq<u8>, pos: int)
    requires
        forall|k: int| 0 <= k < args.len() ==> arg_valid(#[trigger] args[k]),
        0 <= pos,
        pos % 4 == 0,
        pos + args_bytes(args).len() <= b.len(),
        b.subrange(pos, pos + args_bytes(args).len()) == args_bytes(args),
    ensures
        spec_decode_args(tag_chars(args), b, pos) == Ok::<(Seq<ArgumentView>, int), Error>(
            (args, pos + args_bytes(args).len()),
        ),
    decreases args.len(),
{
    if args.len() == 0 {
        assert(spec_decode_args(tag_chars(args), b, pos) == Ok::<(Seq<ArgumentView>, int), Error>(
            (Seq::<ArgumentView>::empty(), pos),
        ));
        assert(args =~= Seq::<ArgumentView>::empty());
    } else {
        let a0 = args[0];
        let head = padded(arg_bytes(a0));
        let hlen = head.len() as int;
        let rest = args.drop_first();
        let whole = args_bytes(args);
        let wlen = whole.len() as int;
        assert(whole == head + args_bytes(rest));
        assert forall|j: int| 0 <= j < wlen implies b[pos + j] == whole[j] by {
            assert(b.subrange(pos, pos + wlen)[j] == b[pos + j]);
        }
        assert forall|j: int| 0 <= j < hlen implies b.subrange(pos, pos + hlen)[j] == head[j] by {
            assert(b[pos + j] == whole[j]);
            assert(whole[j] == head[j]);
        }
        assert(b.subrange(pos, pos + hlen) =~= head);
        Argument::lemma_decode_of_bytes(a0, b, pos);
        wire::lemma_padded_len(arg_bytes(a0));
        assert(tag_chars(args)[0] == tag_char(a0));
        let rest_bytes = args_bytes(rest);
        assert forall|j: int| 0 <= j < rest_bytes.len() implies b.subrange(
            pos + hlen,
            pos + hlen + rest_bytes.len(),
        )[j] == rest_bytes[j] by {
            assert(b[pos + (hlen + j)] == whole[hlen + j]);
            assert(whole[hlen + j] == rest_bytes[j]);
        }
        assert(b.subrange(pos + hlen, pos + hlen + args_bytes(rest).len()) =~= args_bytes(rest));
        assert(forall|k: int| 0 <= k < rest.len() ==> arg_valid(#[trigger] rest[k]));
        lemma_decode_args_of_bytes(rest, b, pos + hlen);
        assert(tag_chars(args).drop_first() =~= tag_chars(rest));
        assert(seq![a0] + rest =~= args);
    }
}

/// Round trip: decoding the wire encoding of any command carried by the
/// format — strings without null characters, binary payloads whose lengths
/// fit their prefixes — yields the command back.
#[verifier::rlimit(60)]
pub proof fn lemma_round_trip(c: CommandView)
    requires
        command_valid(c),
    ensures
        spec_decode(spec_encode(c)) == Ok::<CommandView, Error>(c),
{
    let b = spec_encode(c);
    let ab = str_block(c.address);
    let tchars = seq![','] + tag_chars(c.args);
    let tb = str_block(tchars);
    let rb = args_bytes(c.args);
    let alen = ab.len() as int;
    let tlen = tb.len() as int;
    wire::lemma_padded_len(encode_utf8(c.address).push(0));
    wire::lemma_padded_len(encode_utf8(tchars).push(0));
    lemma_args_bytes_aligned(c.args);
    assert(b == (ab + tb) + rb);

    // The address string decodes first.
    assert(b.subrange(0, alen) =~= ab);
    wire::lemma_decode_string_of_block(c.address, b, 0);

    // Then the type-tag block, which is null-free and starts with a comma.
    assert forall|i: int| 0 <= i < tchars.len() implies tchars[i] != '\0' by {
        if i > 0 {
            assert(tchars[i] == tag_char(c.args[i - 1]));
        }
    }
    assert(no_nul(tchars));
    assert(b.subrange(alen, alen + tlen) =~= tb);
    wire::lemma_decode_string_of_block(tchars, b, alen);
    assert(tchars[0] == ',');
    assert(tchars.drop_first() =~= tag_chars(c.args));

    // Then one argument per tag character.
    assert(b.subrange(alen + tlen, alen + tlen + rb.len()) =~= rb);
    lemma_decode_args_of_bytes(c.args, b, alen + tlen);

    assert(spec_decode(b) == Ok::<CommandView, Error>(
        CommandView { address: c.address, args: c.args },
    ));
    assert(CommandView { address: c.address, args: c.args } == c);
}

/// Alignment: the wire encoding of any command has a length that is a
/// multiple of four.
pub proof fn lemma_encode_aligned(c: CommandView)
    ensures
        spec_encode(c).len() % 4 == 0,
{
    wire::lemma_padded_len(encode_utf8(c.address).push(0));
    wire::lemma_padded_len(encode_utf8(seq![','] + tag_chars(c.args)).push(0));
    lemma_args_bytes_aligned(c.args);
}

/// Tag/argument correspondence: a successful argument decode yields exactly
/// one argument per tag character, each of the variant its tag names, in
/// the tag sequence's order.
pub proof fn lemma_tag_argument_correspondence(
    tags: Seq<char>,
    b: Seq<u8>,
    pos: int,
    args: Seq<ArgumentView>,
    end: int,
)
    requires
        spec_decode_args(tags, b, pos) == Ok::<(Seq<ArgumentView>, int), Error>((args, end)),
    ensures
        args.len() == tags.len(),
        forall|k: int| 0 <= k < args.len() ==> tag_char(#[trigger] args[k]) == tags[k],
    decreases tags.len(),
{
    if tags.len() > 0 {
        let ap = spec_decode_arg(tags[0], b, pos)->Ok_0;
        let after = align_up(ap.1);
        let rp = spec_decode_args(tags.drop_first(), b, after)->Ok_0;
        lemma_tag_argument_correspondence(tags.drop_first(), b, after, rp.0, rp.1);
        assert(tag_char(ap.0) == tags[0]);
        assert(args == seq![ap.0] + rp.0);
        assert forall|k: int| 0 <= k < args.len() implies tag_char(#[trigger] args[k])
            == tags[k] by {
            if k > 0 {
                assert(args[k] == rp.0[k - 1]);
                assert(tags[k] == tags.drop_first()[k - 1]);
            }
        }
    }
}

/// Unknown tag: a tag character outside 's', 'i', 'f', 'b' fails with
/// `UnsupportedType` carrying that character, whatever the buffer holds and
/// wherever the cursor stands; no bytes are consumed.
pub proof fn lemma_unknown_tag(tag: char, b: Seq<u8>, pos: int)
    requires
        tag != 's',
        tag != 'i',
        tag != 'f',
        tag != 'b',
    ensures
        spec_decode_arg(tag, b, pos) == Err::<(ArgumentView, int), Error>(
            Error::UnsupportedType(tag),
        ),
{
}

/// Missing terminator: a buffer without any zero byte fails to decode with
/// `MalformedMessage`.
pub proof fn lemma_missing_terminator(b: Seq<u8>)
    requires
        forall|i: int| 0 <= i < b.len() ==> b[i] != 0,
    ensures
        spec_decode(b) == Err::<CommandView, Error>(Error::MalformedMessage),
{
    wire::lemma_first_nul_at_none(b, 0);
}

} // verus!
