//! The JSON error envelope: `{"code":<code>,"message":"<message>"}`.
//!
//! Every failure a client sees is framed this way. The spec functions state
//! the exact bytes, including JSON string escaping of the message.
use vstd::prelude::*;
use vstd::string::StrSliceExecFns;
use vstd::string::StringSliceAdditionalSpecFns;

verus! {

/// A hexadecimal digit, lower case.
pub open spec fn hex_digit(d: nat) -> u8 {
    if d < 10 {
        (0x30 + d) as u8
    } else {
        (0x57 + d) as u8
    }
}

/// How one byte of a message appears inside a JSON string literal.
pub open spec fn escape_byte(b: u8) -> Seq<u8> {
    if b == 0x22 {
        seq![0x5cu8, 0x22u8]  // \"
    } else if b == 0x5c {
        seq![0x5cu8, 0x5cu8]  // \\
    } else if b == 0x08 {
        seq![0x5cu8, 0x62u8]  // \b
    } else if b == 0x0c {
        seq![0x5cu8, 0x66u8]  // \f
    } else if b == 0x0a {
        seq![0x5cu8, 0x6eu8]  // \n
    } else if b == 0x0d {
        seq![0x5cu8, 0x72u8]  // \r
    } else if b == 0x09 {
        seq![0x5cu8, 0x74u8]  // \t
    } else if b < 0x20 {
        seq![0x5cu8, 0x75u8, 0x30u8, 0x30u8, hex_digit((b / 16) as nat), hex_digit((b % 16) as nat)]
    } else {
        seq![b]
    }
}

/// A whole message, escaped byte by byte.
pub open spec fn json_escape(s: Seq<u8>) -> Seq<u8>
    decreases s.len(),
{
    if s.len() == 0 {
        Seq::empty()
    } else {
        escape_byte(s[0]) + json_escape(s.skip(1))
    }
}

/// The decimal digits of `v`, most significant first, no leading zeros.
pub open spec fn dec_seq(v: nat) -> Seq<u8>
    decreases v,
{
    if v < 10 {
        seq![(0x30 + v) as u8]
    } else {
        dec_seq(v / 10).push((0x30 + v % 10) as u8)
    }
}

/// The bytes of `{"code":`.
pub open spec fn envelope_head() -> Seq<u8> {
    seq![0x7bu8, 0x22u8, 0x63u8, 0x6fu8, 0x64u8, 0x65u8, 0x22u8, 0x3au8]
}

/// The bytes of `,"message":"`.
pub open spec fn envelope_mid() -> Seq<u8> {
    seq![
        0x2cu8,
        0x22u8,
        0x6du8,
        0x65u8,
        0x73u8,
        0x73u8,
        0x61u8,
        0x67u8,
        0x65u8,
        0x22u8,
        0x3au8,
        0x22u8,
    ]
}

/// The closing `"}`.
pub open spec fn envelope_tail() -> Seq<u8> {
    seq![0x22u8, 0x7du8]
}

/// The whole envelope for a status code and a message.
pub open spec fn json_envelope(code: nat, msg: Seq<u8>) -> Seq<u8> {
    envelope_head() + dec_seq(code) + envelope_mid() + json_escape(msg) + envelope_tail()
}

/// Escaping one more byte extends the escaped text by that byte's escape.
proof fn lemma_json_escape_push(s: Seq<u8>, b: u8)
    ensures
        json_escape(s.push(b)) == json_escape(s) + escape_byte(b),
    decreases s.len(),
{
    if s.len() == 0 {
        assert(s.push(b)[0] == b);
        assert(s.push(b).skip(1) =~= Seq::<u8>::empty());
        assert(json_escape(Seq::<u8>::empty()) == Seq::<u8>::empty());
        assert(json_escape(s.push(b)) == escape_byte(b) + Seq::<u8>::empty());
        assert(escape_byte(b) + Seq::<u8>::empty() =~= Seq::<u8>::empty() + escape_byte(b));
    } else {
        assert(s.push(b).skip(1) =~= s.skip(1).push(b));
        lemma_json_escape_push(s.skip(1), b);
        assert(s.push(b)[0] == s[0]);
        assert(json_escape(s.push(b)) == escape_byte(s[0]) + (json_escape(s.skip(1))
            + escape_byte(b)));
        assert(escape_byte(s[0]) + (json_escape(s.skip(1)) + escape_byte(b)) =~= (escape_byte(s[0])
            + json_escape(s.skip(1))) + escape_byte(b));
    }
}

/// Append the decimal digits of `v`.
fn push_dec(sink: &mut Vec<u8>, v: u16)
    ensures
        final(sink)@ == old(sink)@ + dec_seq(v as nat),
    decreases v,
{
    if v < 10 {
        sink.push(0x30 + v as u8);
        proof {
            assert(old(sink)@ + dec_seq(v as nat) =~= old(sink)@.push((0x30 + v as nat) as u8));
        }
    } else {
        push_dec(sink, v / 10);
        sink.push(0x30 + (v % 10) as u8);
        proof {
            assert(old(sink)@ + dec_seq(v as nat) =~= (old(sink)@ + dec_seq(
                (v / 10) as nat,
            )).push((0x30 + (v as nat) % 10) as u8));
        }
    }
}

/// Append the escape of one message byte.
fn push_escaped(sink: &mut Vec<u8>, b: u8)
    ensures
        final(sink)@ == old(sink)@ + escape_byte(b),
{
    if b == 0x22 {
        sink.push(0x5c);
        sink.push(0x22);
    } else if b == 0x5c {
        sink.push(0x5c);
        sink.push(0x5c);
    } else if b == 0x08 {
        sink.push(0x5c);
        sink.push(0x62);
    } else if b == 0x0c {
        sink.push(0x5c);
        sink.push(0x66);
    } else if b == 0x0a {
        sink.push(0x5c);
        sink.push(0x6e);
    } else if b == 0x0d {
        sink.push(0x5c);
        sink.push(0x72);
    } else if b == 0x09 {
        sink.push(0x5c);
        sink.push(0x74);
    } else if b < 0x20 {
        sink.push(0x5c);
        sink.push(0x75);
        sink.push(0x30);
        sink.push(0x30);
        let hi = b / 16;
        let lo = b % 16;
        sink.push(if hi < 10 {
            0x30 + hi
        } else {
            0x57 + hi
        });
        sink.push(if lo < 10 {
            0x30 + lo
        } else {
            0x57 + lo
        });
    } else {
        sink.push(b);
    }
    proof {
        assert(final(sink)@ =~= old(sink)@ + escape_byte(b));
    }
}

/// The JSON error envelope a failed request answers with: the status code
/// and the message, the message escaped as a JSON string.
pub fn error_body(code: u16, message: &str) -> (r: Vec<u8>)
    ensures
        r@ == json_envelope(code as nat, message.spec_bytes()),
{
    let msg = message.as_bytes_vec();
    let mut out: Vec<u8> = Vec::new();
    out.push(0x7b);
    out.push(0x22);
    out.push(0x63);
    out.push(0x6f);
    out.push(0x64);
    out.push(0x65);
    out.push(0x22);
    out.push(0x3a);
    proof {
        assert(out@ =~= envelope_head());
    }
    push_dec(&mut out, code);
    out.push(0x2c);
    out.push(0x22);
    out.push(0x6d);
    out.push(0x65);
    out.push(0x73);
    out.push(0x73);
    out.push(0x61);
    out.push(0x67);
    out.push(0x65);
    out.push(0x22);
    out.push(0x3a);
    out.push(0x22);
    proof {
        assert(out@ =~= envelope_head() + dec_seq(code as nat) + envelope_mid());
    }
    let ghost framed = out@;
    let mut i: usize = 0;
    while i < msg.len()
        invariant
            i <= msg@.len(),
            out@ == framed + json_escape(msg@.take(i as int)),
        decreases msg@.len() - i,
    {
        push_escaped(&mut out, msg[i]);
        proof {
            assert(msg@.take(i + 1) =~= msg@.take(i as int).push(msg@[i as int]));
            lemma_json_escape_push(msg@.take(i as int), msg@[i as int]);
            assert(framed + json_escape(msg@.take(i as int)) + escape_byte(msg@[i as int]) =~=
            framed + (json_escape(msg@.take(i as int)) + escape_byte(msg@[i as int])));
        }
        i = i + 1;
    }
    proof {
        assert(msg@.take(msg@.len() as int) =~= msg@);
    }
    out.push(0x22);
    out.push(0x7d);
    proof {
        assert(out@ =~= json_envelope(code as nat, message.spec_bytes()));
    }
    out
}

} // verus!
