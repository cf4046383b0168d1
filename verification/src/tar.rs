//! Tar archive construction.
//!
//! An archive is a sequence of members, one per regular file, followed by a
//! terminator of two all-zero 512-byte blocks. Each member is a 512-byte
//! ustar header followed by the file content padded with zero bytes up to a
//! 512-byte boundary. The spec functions below state the exact bytes, and
//! the executable functions are proved to produce them.
use vstd::prelude::*;
use vstd::pervasive::VecAdditionalExecFns;

verus! {

/// `n` zero bytes.
pub open spec fn zeros(n: nat) -> Seq<u8> {
    Seq::new(n, |i: int| 0u8)
}

/// `n` ASCII space bytes.
pub open spec fn spaces(n: nat) -> Seq<u8> {
    Seq::new(n, |i: int| 32u8)
}

/// The low `width` octal digits of `v`, most significant first.
pub open spec fn octal_seq(v: nat, width: nat) -> Seq<u8>
    decreases width,
{
    if width == 0 {
        Seq::empty()
    } else {
        octal_seq(v / 8, (width - 1) as nat).push((0x30 + v % 8) as u8)
    }
}

/// 8 raised to the power `w`.
pub open spec fn pow8(w: nat) -> nat
    decreases w,
{
    if w == 0 {
        1
    } else {
        8 * pow8((w - 1) as nat)
    }
}

/// Sum of a byte sequence, as used by the tar header checksum.
pub open spec fn sum_bytes(s: Seq<u8>) -> nat
    decreases s.len(),
{
    if s.len() == 0 {
        0
    } else {
        sum_bytes(s.drop_last()) + (s.last() as nat)
    }
}

/// Zero padding that brings a member's content up to a 512-byte boundary.
pub open spec fn pad_len(n: nat) -> nat {
    if n % 512 == 0 {
        0
    } else {
        (512 - n % 512) as nat
    }
}

/// A member name the header can carry: non-empty, at most 100 bytes, no NUL.
pub open spec fn valid_name(name: Seq<u8>) -> bool {
    1 <= name.len() <= 100 && (forall|i: int| 0 <= i < name.len() ==> name[i] != 0)
}

/// Content whose size fits the 11 octal digits of the header's size field.
pub open spec fn valid_content(content: Seq<u8>) -> bool {
    content.len() < pow8(11)
}

/// The name field: the name, NUL-padded to 100 bytes.
pub open spec fn name_field(name: Seq<u8>) -> Seq<u8> {
    name + zeros((100 - name.len()) as nat)
}

/// An 8-byte numeric field: 7 octal digits and a NUL.
pub open spec fn num_field_8(v: nat) -> Seq<u8> {
    octal_seq(v, 7).push(0)
}

/// A 12-byte numeric field: 11 octal digits and a NUL.
pub open spec fn num_field_12(v: nat) -> Seq<u8> {
    octal_seq(v, 11).push(0)
}

/// The ustar magic and version: "ustar", NUL, "00".
pub open spec fn magic_field() -> Seq<u8> {
    seq![0x75u8, 0x73u8, 0x74u8, 0x61u8, 0x72u8, 0u8, 0x30u8, 0x30u8]
}

/// The checksum field: 6 octal digits, a NUL and a space.
pub open spec fn chksum_field(c: nat) -> Seq<u8> {
    octal_seq(c, 6) + seq![0u8, 32u8]
}

/// The header with the checksum field still holding the eight spaces over
/// which the checksum itself is computed.
pub open spec fn header_pre(name: Seq<u8>, size: nat) -> Seq<u8> {
    name_field(name)        // 0..100: name
     + num_field_8(0o644)   // 100..108: mode
     + num_field_8(0)       // 108..116: uid
     + num_field_8(0)       // 116..124: gid
     + num_field_12(size)   // 124..136: size
     + num_field_12(0)      // 136..148: mtime
     + spaces(8)            // 148..156: checksum, as spaces while summing
     + seq![0x30u8]         // 156: type flag, regular file
     + zeros(100)           // 157..257: link name
     + magic_field()        // 257..265: magic and version
     + zeros(247)           // 265..512: uname, gname, device numbers, prefix
}

/// A member's 512-byte header: the checksum of the space-filled header is
/// spliced into the checksum field.
pub open spec fn header_spec(name: Seq<u8>, size: nat) -> Seq<u8> {
    header_pre(name, size).take(148) + chksum_field(sum_bytes(header_pre(name, size)))
        + header_pre(name, size).skip(156)
}

/// One member: header, content, zero padding to the block boundary.
pub open spec fn member_spec(name: Seq<u8>, content: Seq<u8>) -> Seq<u8> {
    header_spec(name, content.len()) + content + zeros(pad_len(content.len()))
}

/// The whole archive for a sequence of (name, content) pairs: the members in
/// order, then the two-block terminator.
pub open spec fn encode_spec(entries: Seq<(Seq<u8>, Seq<u8>)>) -> Seq<u8>
    decreases entries.len(),
{
    if entries.len() == 0 {
        zeros(1024)
    } else {
        member_spec(entries[0].0, entries[0].1) + encode_spec(entries.skip(1))
    }
}

/// How many bytes stand before the first NUL; the whole length when no
/// byte is NUL.
pub open spec fn nul_len(s: Seq<u8>) -> nat
    decreases s.len(),
{
    if s.len() == 0 {
        0
    } else if s[0] == 0 {
        0
    } else {
        1 + nul_len(s.skip(1))
    }
}

/// The value of a sequence of octal digits, most significant first.
pub open spec fn octal_val(s: Seq<u8>) -> nat
    decreases s.len(),
{
    if s.len() == 0 {
        0
    } else {
        octal_val(s.drop_last()) * 8 + (if 0x30 <= s.last() <= 0x37 {
            (s.last() - 0x30) as nat
        } else {
            0
        })
    }
}

/// Every byte is an octal digit.
pub open spec fn all_octal(s: Seq<u8>) -> bool {
    forall|i: int| 0 <= i < s.len() ==> 0x30 <= #[trigger] s[i] <= 0x37
}

/// A 512-byte block that a reader accepts as a member header: a non-empty
/// name, octal digits and a NUL in the size field, the regular-file flag.
pub open spec fn header_ok(h: Seq<u8>) -> bool {
    &&& h.len() == 512
    &&& h[0] != 0
    &&& all_octal(h.subrange(124, 135))
    &&& h[135] == 0
    &&& h[156] == 0x30
}

/// The member name a header carries: the name field up to its first NUL.
pub open spec fn header_name_of(h: Seq<u8>) -> Seq<u8> {
    h.subrange(0, 100).take(nul_len(h.subrange(0, 100)) as int)
}

/// The content size a header carries.
pub open spec fn header_size_of(h: Seq<u8>) -> nat {
    octal_val(h.subrange(124, 135))
}

/// Read an archive back into its (name, content) pairs: members in order
/// until the two-block terminator; `None` when the bytes are not a tar
/// stream of that shape.
pub open spec fn decode_spec(bytes: Seq<u8>) -> Option<Seq<(Seq<u8>, Seq<u8>)>>
    decreases bytes.len(),
{
    if bytes == zeros(1024) {
        Some(Seq::empty())
    } else if bytes.len() < 512 {
        None
    } else {
        let h = bytes.subrange(0, 512);
        if !header_ok(h) {
            None
        } else {
            let size = header_size_of(h) as int;
            let total = 512 + size + pad_len(size as nat) as int;
            if bytes.len() < total {
                None
            } else if bytes.subrange(512 + size, total) != zeros(pad_len(size as nat)) {
                None
            } else {
                match decode_spec(bytes.skip(total)) {
                    Option::None => None,
                    Option::Some(rest) => Some(
                        seq![(header_name_of(h), bytes.subrange(512, 512 + size))] + rest,
                    ),
                }
            }
        }
    }
}

/// An octal digit sequence is as long as its width.
pub broadcast proof fn lemma_octal_len(v: nat, width: nat)
    ensures
        #[trigger] octal_seq(v, width).len() == width,
    decreases width,
{
    if width > 0 {
        lemma_octal_len(v / 8, (width - 1) as nat);
    }
}

/// The space-filled header is one 512-byte block.
pub proof fn lemma_header_pre_len(name: Seq<u8>, size: nat)
    requires
        name.len() <= 100,
    ensures
        header_pre(name, size).len() == 512,
{
    broadcast use lemma_octal_len;

}

/// The finished header is one 512-byte block.
pub proof fn lemma_header_len(name: Seq<u8>, size: nat)
    requires
        name.len() <= 100,
    ensures
        header_spec(name, size).len() == 512,
{
    broadcast use lemma_octal_len;

    lemma_header_pre_len(name, size);
}

/// Every byte of an octal digit sequence is an octal digit.
proof fn lemma_octal_digits(v: nat, width: nat)
    ensures
        all_octal(octal_seq(v, width)),
    decreases width,
{
    broadcast use lemma_octal_len;

    if width > 0 {
        lemma_octal_digits(v / 8, (width - 1) as nat);
        let s = octal_seq(v, width);
        assert forall|i: int| 0 <= i < s.len() implies 0x30 <= #[trigger] s[i] <= 0x37 by {
            if i < width - 1 {
                assert(s[i] == octal_seq(v / 8, (width - 1) as nat)[i]);
            } else {
                assert(s[i] == (0x30 + v % 8) as u8);
            }
        }
    }
}

/// Writing a value in octal and reading it back gives the value, as long
/// as it fits the width.
proof fn lemma_octal_roundtrip(v: nat, width: nat)
    requires
        v < pow8(width),
    ensures
        octal_val(octal_seq(v, width)) == v,
    decreases width,
{
    broadcast use lemma_octal_len;

    if width == 0 {
        assert(v == 0);
    } else {
        let p = pow8((width - 1) as nat);
        assert(v >= 8 * (v / 8));
        if v / 8 >= p {
            assert(8 * (v / 8) >= 8 * p);
            assert(false);
        }
        lemma_octal_roundtrip(v / 8, (width - 1) as nat);
        let s = octal_seq(v, width);
        assert(s.drop_last() =~= octal_seq(v / 8, (width - 1) as nat));
        assert(s.last() == (0x30 + v % 8) as u8);
        assert(octal_val(s) == (v / 8) * 8 + v % 8);
    }
}

/// In a NUL-free text padded with zeros, the first NUL stands right after
/// the text.
proof fn lemma_nul_len_pad(s: Seq<u8>, k: nat)
    requires
        forall|i: int| 0 <= i < s.len() ==> s[i] != 0,
    ensures
        nul_len(s + zeros(k)) == s.len(),
    decreases s.len(),
{
    if s.len() == 0 {
        assert(s + zeros(k) =~= zeros(k));
        if k > 0 {
            assert(zeros(k)[0] == 0);
        }
    } else {
        assert((s + zeros(k))[0] == s[0]);
        assert((s + zeros(k)).skip(1) =~= s.skip(1) + zeros(k));
        lemma_nul_len_pad(s.skip(1), k);
    }
}

/// Powers of eight grow with the exponent.
proof fn lemma_pow8_mono(a: nat, b: nat)
    requires
        a <= b,
    ensures
        pow8(a) <= pow8(b),
    decreases b,
{
    if a < b {
        lemma_pow8_mono(a, (b - 1) as nat);
    }
}

/// Where a scan finds the first NUL, that is `nul_len`.
proof fn lemma_nul_len_at(s: Seq<u8>, i: int)
    requires
        0 <= i <= s.len(),
        forall|j: int| 0 <= j < i ==> s[j] != 0,
        i < s.len() ==> s[i] == 0,
    ensures
        nul_len(s) == i,
    decreases i,
{
    if s.len() == 0 {
    } else if i == 0 {
    } else {
        assert(s[0] != 0);
        lemma_nul_len_at(s.skip(1), i - 1);
    }
}

/// A member's length: header block, content, padding.
pub proof fn lemma_member_len(name: Seq<u8>, content: Seq<u8>)
    requires
        name.len() <= 100,
    ensures
        member_spec(name, content).len() == 512 + content.len() + pad_len(content.len()),
{
    lemma_header_len(name, content.len());
}

/// An archive is never shorter than its terminator.
proof fn lemma_encode_len(entries: Seq<(Seq<u8>, Seq<u8>)>)
    ensures
        encode_spec(entries).len() >= 1024,
    decreases entries.len(),
{
    if entries.len() > 0 {
        lemma_encode_len(entries.skip(1));
    }
}

/// A header the encoder wrote is accepted by the reader and carries back
/// the name and size it was written with.
proof fn lemma_header_fields(name: Seq<u8>, size: nat)
    requires
        valid_name(name),
        size < pow8(11),
    ensures
        header_ok(header_spec(name, size)),
        header_name_of(header_spec(name, size)) == name,
        header_size_of(header_spec(name, size)) == size,
{
    broadcast use lemma_octal_len;

    let hpre = header_pre(name, size);
    let h = header_spec(name, size);
    lemma_header_pre_len(name, size);
    lemma_header_len(name, size);
    assert(forall|i: int| 0 <= i < 148 ==> h[i] == hpre[i]);
    assert(forall|i: int| 156 <= i < 512 ==> h[i] == hpre[i]);
    assert(h[0] == name[0]);
    assert(h.subrange(0, 100) =~= name_field(name));
    lemma_nul_len_pad(name, (100 - name.len()) as nat);
    assert(name_field(name).take(name.len() as int) =~= name);
    assert(h.subrange(124, 135) =~= octal_seq(size, 11));
    lemma_octal_digits(size, 11);
    lemma_octal_roundtrip(size, 11);
    assert(h[135] == hpre[135]);
    assert(hpre[135] == num_field_12(size)[11]);
    assert(h[156] == hpre[156]);
    assert(hpre[156] == 0x30);
}

/// Reading back what the encoder wrote gives exactly the encoded pairs,
/// whatever order the directory listing yielded them in.
pub proof fn lemma_round_trip(entries: Seq<(Seq<u8>, Seq<u8>)>)
    requires
        forall|i: int|
            0 <= i < entries.len() ==> valid_name(#[trigger] entries[i].0) && valid_content(
                entries[i].1,
            ),
    ensures
        decode_spec(encode_spec(entries)) == Some(entries),
    decreases entries.len(),
{
    broadcast use lemma_octal_len;

    if entries.len() == 0 {
        assert(entries =~= Seq::<(Seq<u8>, Seq<u8>)>::empty());
        assert(encode_spec(entries) == zeros(1024));
    } else {
        let n = entries[0].0;
        let c = entries[0].1;
        let rest = encode_spec(entries.skip(1));
        let bytes = encode_spec(entries);
        let member = member_spec(n, c);
        assert(valid_name(n) && valid_content(c));
        lemma_member_len(n, c);
        lemma_encode_len(entries.skip(1));
        lemma_header_len(n, c.len());
        assert(bytes == member + rest);
        assert(bytes.len() != 1024);
        assert(zeros(1024).len() == 1024);
        assert(bytes != zeros(1024));
        let h = bytes.subrange(0, 512);
        assert(h =~= header_spec(n, c.len()));
        lemma_header_fields(n, c.len());
        let size = header_size_of(h) as int;
        assert(size == c.len());
        let total = 512 + size + pad_len(size as nat) as int;
        assert(total == member.len());
        assert(bytes.len() >= total + 1024);
        assert(bytes.subrange(512 + size, total) =~= zeros(pad_len(size as nat)));
        assert(bytes.skip(total) =~= rest);
        assert(forall|i: int|
            0 <= i < entries.skip(1).len() ==> entries.skip(1)[i] == entries[i + 1]);
        lemma_round_trip(entries.skip(1));
        assert(bytes.subrange(512, 512 + size) =~= c);
        assert(header_name_of(h) == n);
        assert(seq![(header_name_of(h), bytes.subrange(512, 512 + size))] + entries.skip(1)
            =~= entries);
    }
}

/// Every pair the archiver selects has a name and a size that fit a header.
proof fn lemma_archived_pairs_valid(entries: Seq<WalkEntry>)
    ensures
        forall|i: int|
            0 <= i < archived_pairs(entries).len() ==> valid_name(
                #[trigger] archived_pairs(entries)[i].0,
            ) && valid_content(archived_pairs(entries)[i].1),
    decreases entries.len(),
{
    if entries.len() > 0 {
        lemma_archived_pairs_valid(entries.skip(1));
        assert forall|i: int| 0 <= i < archived_pairs(entries).len() implies valid_name(
            #[trigger] archived_pairs(entries)[i].0,
        ) && valid_content(archived_pairs(entries)[i].1) by {
            if entry_archived(entries[0]) {
                if i == 0 {
                    assert(archived_pairs(entries)[0] == (
                        entries[0].rel_path.unwrap()@,
                        entries[0].content.unwrap()@,
                    ));
                } else {
                    assert(archived_pairs(entries)[i] == archived_pairs(entries.skip(1))[i - 1]);
                }
            } else {
                assert(archived_pairs(entries)[i] == archived_pairs(entries.skip(1))[i]);
            }
        }
    }
}

/// The skip-not-fail law: whatever mix of entries the walk yielded, the
/// archive reads back as exactly the regular files whose per-entry steps
/// succeeded — skipped entries are absent, and the stream stays valid.
pub proof fn lemma_skip_not_fail(entries: Seq<WalkEntry>)
    ensures
        decode_spec(archive_bytes(entries)) == Some(archived_pairs(entries)),
{
    lemma_archive_is_encode(entries);
    lemma_archived_pairs_valid(entries);
    lemma_round_trip(archived_pairs(entries));
}

/// Order independence: two walks that select the same set of (name,
/// content) pairs — in whatever order the filesystem yielded them — read
/// back as the same set of pairs.
pub proof fn lemma_order_independent(e1: Seq<WalkEntry>, e2: Seq<WalkEntry>)
    requires
        archived_pairs(e1).to_set() == archived_pairs(e2).to_set(),
    ensures
        decode_spec(archive_bytes(e1)) is Some,
        decode_spec(archive_bytes(e2)) is Some,
        decode_spec(archive_bytes(e1))->Some_0.to_set() == decode_spec(
            archive_bytes(e2),
        )->Some_0.to_set(),
{
    lemma_skip_not_fail(e1);
    lemma_skip_not_fail(e2);
}

/// The empty-directory law: an empty walk yields the minimal valid archive,
/// just the two-block terminator, which reads back as zero entries.
pub proof fn lemma_empty_archive()
    ensures
        archive_bytes(Seq::<WalkEntry>::empty()) == zeros(1024),
        decode_spec(archive_bytes(Seq::<WalkEntry>::empty())) == Some(
            Seq::<(Seq<u8>, Seq<u8>)>::empty(),
        ),
{
    assert(archive_bytes(Seq::<WalkEntry>::empty()) =~= zeros(1024));
    lemma_skip_not_fail(Seq::<WalkEntry>::empty());
    assert(archived_pairs(Seq::<WalkEntry>::empty()) =~= Seq::<(Seq<u8>, Seq<u8>)>::empty());
}

/// Append `n` zero bytes to the sink.
fn push_zeros(sink: &mut Vec<u8>, n: usize)
    ensures
        final(sink)@ == old(sink)@ + zeros(n as nat),
{
    let mut i: usize = 0;
    while i < n
        invariant
            i <= n,
            sink@ == old(sink)@ + zeros(i as nat),
        decreases n - i,
    {
        sink.push(0);
        proof {
            assert(old(sink)@ + zeros((i + 1) as nat) =~= (old(sink)@ + zeros(
                i as nat,
            )).push(0u8));
        }
        i = i + 1;
    }
}

/// Append a copy of `data` to the sink.
fn push_bytes(sink: &mut Vec<u8>, data: &Vec<u8>)
    ensures
        final(sink)@ == old(sink)@ + data@,
{
    let mut i: usize = 0;
    while i < data.len()
        invariant
            i <= data.len(),
            sink@ == old(sink)@ + data@.take(i as int),
        decreases data.len() - i,
    {
        sink.push(data[i]);
        proof {
            assert(old(sink)@ + data@.take(i + 1) =~= (old(sink)@ + data@.take(
                i as int,
            )).push(data@[i as int]));
        }
        i = i + 1;
    }
    proof {
        assert(data@.take(data@.len() as int) =~= data@);
    }
}

/// Append the low `width` octal digits of `v`, most significant first.
fn push_octal(sink: &mut Vec<u8>, v: u64, width: usize)
    ensures
        final(sink)@ == old(sink)@ + octal_seq(v as nat, width as nat),
    decreases width,
{
    if width == 0 {
        proof {
            assert(old(sink)@ + octal_seq(v as nat, 0) =~= old(sink)@);
        }
    } else {
        push_octal(sink, v / 8, width - 1);
        sink.push(0x30 + (v % 8) as u8);
        proof {
            assert(old(sink)@ + octal_seq(v as nat, width as nat) =~= (old(sink)@ + octal_seq(
                (v / 8) as nat,
                (width - 1) as nat,
            )).push((0x30 + (v as nat) % 8) as u8));
        }
    }
}

/// Append `n` ASCII space bytes to the sink.
fn push_spaces(sink: &mut Vec<u8>, n: usize)
    ensures
        final(sink)@ == old(sink)@ + spaces(n as nat),
{
    let mut i: usize = 0;
    while i < n
        invariant
            i <= n,
            sink@ == old(sink)@ + spaces(i as nat),
        decreases n - i,
    {
        sink.push(32);
        proof {
            assert(old(sink)@ + spaces((i + 1) as nat) =~= (old(sink)@ + spaces(
                i as nat,
            )).push(32u8));
        }
        i = i + 1;
    }
}

/// Build the 512-byte header for a member of the given name and size.
pub fn make_header(name: &Vec<u8>, size: u64) -> (h: Vec<u8>)
    requires
        valid_name(name@),
    ensures
        h@ == header_spec(name@, size as nat),
{
    broadcast use lemma_octal_len;

    let mut h: Vec<u8> = Vec::new();
    push_bytes(&mut h, name);
    push_zeros(&mut h, 100 - name.len());
    push_octal(&mut h, 0o644, 7);
    h.push(0);
    push_octal(&mut h, 0, 7);
    h.push(0);
    push_octal(&mut h, 0, 7);
    h.push(0);
    push_octal(&mut h, size, 11);
    h.push(0);
    push_octal(&mut h, 0, 11);
    h.push(0);
    push_spaces(&mut h, 8);
    h.push(0x30);
    push_zeros(&mut h, 100);
    h.push(0x75);
    h.push(0x73);
    h.push(0x74);
    h.push(0x61);
    h.push(0x72);
    h.push(0);
    h.push(0x30);
    h.push(0x30);
    push_zeros(&mut h, 247);
    proof {
        lemma_header_pre_len(name@, size as nat);
        assert(h@ =~= header_pre(name@, size as nat));
    }
    let ghost hpre = header_pre(name@, size as nat);
    let mut sum: u64 = 0;
    let mut j: usize = 0;
    while j < 512
        invariant
            j <= 512,
            h@ == hpre,
            hpre.len() == 512,
            sum == sum_bytes(h@.take(j as int)),
            sum <= 255 * j,
        decreases 512 - j,
    {
        proof {
            assert(h@.take(j + 1).drop_last() =~= h@.take(j as int));
            assert(h@.take(j + 1).last() == h@[j as int]);
        }
        sum = sum + h[j] as u64;
        j = j + 1;
    }
    proof {
        assert(h@.take(512) =~= h@);
    }
    let mut cs: Vec<u8> = Vec::new();
    push_octal(&mut cs, sum, 6);
    cs.push(0);
    cs.push(32);
    proof {
        assert(cs@ =~= chksum_field(sum_bytes(hpre)));
    }
    let mut k: usize = 0;
    while k < 8
        invariant
            k <= 8,
            h@.len() == 512,
            hpre.len() == 512,
            cs@.len() == 8,
            cs@ == chksum_field(sum_bytes(hpre)),
            forall|t: int|
                0 <= t < 512 ==> h@[t] == (if 148 <= t < 148 + k {
                    cs@[t - 148]
                } else {
                    hpre[t]
                }),
        decreases 8 - k,
    {
        h.set(148 + k, cs[k]);
        k = k + 1;
    }
    proof {
        lemma_header_len(name@, size as nat);
        assert(h@ =~= header_spec(name@, size as nat));
    }
    h
}

/// Append one member — header, content, padding — to the sink.
pub fn append_member(sink: &mut Vec<u8>, name: &Vec<u8>, content: &Vec<u8>)
    requires
        valid_name(name@),
    ensures
        final(sink)@ == old(sink)@ + member_spec(name@, content@),
{
    let mut h = make_header(name, content.len() as u64);
    sink.append(&mut h);
    push_bytes(sink, content);
    let rem = content.len() % 512;
    let pad = if rem == 0 {
        0
    } else {
        512 - rem
    };
    push_zeros(sink, pad);
    proof {
        assert(pad == pad_len(content@.len()));
        assert(old(sink)@ + member_spec(name@, content@) =~= ((old(sink)@ + header_spec(
            name@,
            content@.len(),
        )) + content@) + zeros(pad_len(content@.len())));
    }
}

/// The kind of a directory entry, as the file-type query reported it.
#[derive(Clone, Copy, PartialEq, Eq, Structural, Debug)]
pub enum FileKind {
    Regular,
    Directory,
    Symlink,
    Other,
}

/// What the directory walk learned about one entry of the root directory.
/// A `None` in a field records that the corresponding step failed.
pub struct WalkEntry {
    /// Path relative to the root; `None` when prefix-stripping failed.
    pub rel_path: Option<Vec<u8>>,
    /// File kind; `None` when the file-type query itself failed.
    pub kind: Option<FileKind>,
    /// File bytes; `None` when reading the content failed.
    pub content: Option<Vec<u8>>,
}

/// Why an entry is skipped, or that it is archived. Skips are logged and
/// never fail the archive.
#[derive(Clone, Copy, PartialEq, Eq, Structural, Debug)]
pub enum EntryAction {
    /// The entry becomes a tar member.
    Archive,
    /// Prefix-stripping failed; logged at error level.
    SkipStrip,
    /// The file-type query failed; logged at error level.
    SkipTypeQuery,
    /// The entry is not a regular file; logged at warning level.
    SkipNotFile,
    /// Reading or appending the content failed, or the name or size cannot
    /// be framed in a header; logged at error level.
    SkipAppend,
}

/// An entry is archived exactly when every per-entry step succeeded, it is a
/// regular file, and its name and size fit a ustar header.
pub open spec fn entry_archived(e: WalkEntry) -> bool {
    &&& e.rel_path is Some
    &&& e.kind == Some(FileKind::Regular)
    &&& e.content is Some
    &&& valid_name(e.rel_path.unwrap()@)
    &&& valid_content(e.content.unwrap()@)
}

/// The action the archiver takes for one entry.
pub open spec fn spec_entry_action(e: WalkEntry) -> EntryAction {
    if e.rel_path is None {
        EntryAction::SkipStrip
    } else if e.kind is None {
        EntryAction::SkipTypeQuery
    } else if e.kind != Some(FileKind::Regular) {
        EntryAction::SkipNotFile
    } else if e.content is None || !valid_name(e.rel_path.unwrap()@) || !valid_content(
        e.content.unwrap()@,
    ) {
        EntryAction::SkipAppend
    } else {
        EntryAction::Archive
    }
}

/// The member bytes the archiver produces for a sequence of walk entries:
/// one member per archived entry, in listing order, no terminator yet.
pub open spec fn members_bytes(entries: Seq<WalkEntry>) -> Seq<u8>
    decreases entries.len(),
{
    if entries.len() == 0 {
        Seq::empty()
    } else {
        (if entry_archived(entries[0]) {
            member_spec(entries[0].rel_path.unwrap()@, entries[0].content.unwrap()@)
        } else {
            Seq::empty()
        }) + members_bytes(entries.skip(1))
    }
}

/// The complete archive for a sequence of walk entries: the members, then
/// the two-block terminator.
pub open spec fn archive_bytes(entries: Seq<WalkEntry>) -> Seq<u8> {
    members_bytes(entries) + zeros(1024)
}

/// The (name, content) pairs of the archived entries, in listing order.
pub open spec fn archived_pairs(entries: Seq<WalkEntry>) -> Seq<(Seq<u8>, Seq<u8>)>
    decreases entries.len(),
{
    if entries.len() == 0 {
        Seq::empty()
    } else {
        (if entry_archived(entries[0]) {
            seq![(entries[0].rel_path.unwrap()@, entries[0].content.unwrap()@)]
        } else {
            Seq::empty()
        }) + archived_pairs(entries.skip(1))
    }
}

/// The archiver's bytes are the encoding of exactly the archived pairs.
pub proof fn lemma_archive_is_encode(entries: Seq<WalkEntry>)
    ensures
        archive_bytes(entries) == encode_spec(archived_pairs(entries)),
    decreases entries.len(),
{
    if entries.len() == 0 {
        assert(archived_pairs(entries) =~= Seq::<(Seq<u8>, Seq<u8>)>::empty());
        assert(archive_bytes(entries) =~= zeros(1024));
    } else {
        lemma_archive_is_encode(entries.skip(1));
        if entry_archived(entries[0]) {
            let pairs = archived_pairs(entries);
            assert(pairs[0] == (entries[0].rel_path.unwrap()@, entries[0].content.unwrap()@));
            assert(pairs.skip(1) =~= archived_pairs(entries.skip(1)));
            assert(archive_bytes(entries) =~= member_spec(pairs[0].0, pairs[0].1) + encode_spec(
                pairs.skip(1),
            ));
        } else {
            assert(archived_pairs(entries) =~= archived_pairs(entries.skip(1)));
            assert(archive_bytes(entries) =~= archive_bytes(entries.skip(1)));
        }
    }
}

/// Appending one entry to a walk extends the member bytes by that entry's
/// member (or by nothing, when it is skipped).
proof fn lemma_members_push(entries: Seq<WalkEntry>, e: WalkEntry)
    ensures
        members_bytes(entries.push(e)) == members_bytes(entries) + (if entry_archived(e) {
            member_spec(e.rel_path.unwrap()@, e.content.unwrap()@)
        } else {
            Seq::<u8>::empty()
        }),
    decreases entries.len(),
{
    if entries.len() == 0 {
        let x = if entry_archived(e) {
            member_spec(e.rel_path.unwrap()@, e.content.unwrap()@)
        } else {
            Seq::<u8>::empty()
        };
        assert(entries.push(e)[0] == e);
        assert(entries.push(e).skip(1) =~= Seq::<WalkEntry>::empty());
        assert(members_bytes(Seq::<WalkEntry>::empty()) == Seq::<u8>::empty());
        assert(members_bytes(entries.push(e)) == x + Seq::<u8>::empty());
        assert(members_bytes(entries) == Seq::<u8>::empty());
        assert(x + Seq::<u8>::empty() =~= Seq::<u8>::empty() + x);
    } else {
        assert(entries.push(e).skip(1) =~= entries.skip(1).push(e));
        lemma_members_push(entries.skip(1), e);
        let head = if entry_archived(entries[0]) {
            member_spec(entries[0].rel_path.unwrap()@, entries[0].content.unwrap()@)
        } else {
            Seq::<u8>::empty()
        };
        let tail_add = if entry_archived(e) {
            member_spec(e.rel_path.unwrap()@, e.content.unwrap()@)
        } else {
            Seq::<u8>::empty()
        };
        assert(entries.push(e)[0] == entries[0]);
        assert(members_bytes(entries.push(e)) == head + (members_bytes(entries.skip(1))
            + tail_add));
        assert(head + (members_bytes(entries.skip(1)) + tail_add) =~= (head + members_bytes(
            entries.skip(1),
        )) + tail_add);
    }
}

/// The action taken for one walk entry; the caller can log a skipped entry
/// at the level the action calls for.
pub fn entry_action(e: &WalkEntry) -> (r: EntryAction)
    ensures
        r == spec_entry_action(*e),
{
    match &e.rel_path {
        Option::None => EntryAction::SkipStrip,
        Option::Some(name) => {
            match &e.kind {
                Option::None => EntryAction::SkipTypeQuery,
                Option::Some(k) => {
                    if *k != FileKind::Regular {
                        EntryAction::SkipNotFile
                    } else {
                        match &e.content {
                            Option::None => EntryAction::SkipAppend,
                            Option::Some(content) => {
                                if name.len() < 1 || name.len() > 100 || !no_nul(name)
                                    || !content_fits(content) {
                                    EntryAction::SkipAppend
                                } else {
                                    EntryAction::Archive
                                }
                            },
                        }
                    }
                },
            }
        },
    }
}

/// True when the name has no NUL byte.
fn no_nul(name: &Vec<u8>) -> (r: bool)
    ensures
        r == (forall|i: int| 0 <= i < name@.len() ==> name@[i] != 0),
{
    let mut i: usize = 0;
    while i < name.len()
        invariant
            i <= name@.len(),
            forall|j: int| 0 <= j < i ==> name@[j] != 0,
        decreases name@.len() - i,
    {
        if name[i] == 0 {
            return false;
        }
        i = i + 1;
    }
    true
}

/// True when the content's size fits the header's 11 octal digits.
fn content_fits(content: &Vec<u8>) -> (r: bool)
    ensures
        r == valid_content(content@),
{
    proof {
        reveal_with_fuel(pow8, 12);
        assert(pow8(11) == 0x2_0000_0000);
    }
    (content.len() as u64) < 0x2_0000_0000u64
}

/// Archive every regular file of a directory listing into the sink.
///
/// Every entry whose per-entry steps all succeeded becomes one member, in
/// listing order; every other entry is skipped, and skips never fail the
/// archive. The sink then ends with the two-block terminator, so the result
/// is a complete, valid tar stream whatever was skipped.
pub fn tar_files(entries: &Vec<WalkEntry>, sink: Vec<u8>) -> (out: Vec<u8>)
    ensures
        out@ == sink@ + archive_bytes(entries@),
{
    let mut out = sink;
    let ghost start = out@;
    let mut i: usize = 0;
    while i < entries.len()
        invariant
            i <= entries@.len(),
            out@ == start + members_bytes(entries@.take(i as int)),
        decreases entries@.len() - i,
    {
        let e = &entries[i];
        let action = entry_action(e);
        if matches!(action, EntryAction::Archive) {
            match (&e.rel_path, &e.content) {
                (Option::Some(name), Option::Some(content)) => {
                    append_member(&mut out, name, content);
                },
                _ => {
                    proof {
                        assert(false);
                    }
                },
            }
        }
        proof {
            assert(entries@.take(i + 1) =~= entries@.take(i as int).push(entries@[i as int]));
            lemma_members_push(entries@.take(i as int), entries@[i as int]);
            assert(out@ == start + members_bytes(entries@.take(i + 1)));
        }
        i = i + 1;
    }
    proof {
        assert(entries@.take(entries@.len() as int) =~= entries@);
    }
    push_zeros(&mut out, 1024);
    proof {
        assert(out@ =~= start + archive_bytes(entries@));
    }
    out
}

/// True when `n` bytes from `from` on are all zero.
fn region_zero(bytes: &Vec<u8>, from: usize, n: usize) -> (r: bool)
    requires
        from + n <= bytes@.len(),
    ensures
        r == (forall|j: int| 0 <= j < n ==> #[trigger] bytes@[from + j] == 0),
{
    proof {
        vstd::std_specs::vec::axiom_spec_len(bytes);
    }
    let mut z: usize = 0;
    while z < n
        invariant
            from + n <= bytes@.len(),
            bytes@.len() <= usize::MAX,
            z <= n,
            forall|j: int| 0 <= j < z ==> #[trigger] bytes@[from + j] == 0,
        decreases n - z,
    {
        if bytes[from + z] != 0 {
            return false;
        }
        z = z + 1;
    }
    true
}

/// True when `n` bytes from `from` on are all octal digits.
fn region_octal(bytes: &Vec<u8>, from: usize, n: usize) -> (r: bool)
    requires
        from + n <= bytes@.len(),
    ensures
        r == (forall|j: int| 0 <= j < n ==> 0x30 <= #[trigger] bytes@[from + j] <= 0x37),
{
    proof {
        vstd::std_specs::vec::axiom_spec_len(bytes);
    }
    let mut z: usize = 0;
    while z < n
        invariant
            from + n <= bytes@.len(),
            bytes@.len() <= usize::MAX,
            z <= n,
            forall|j: int| 0 <= j < z ==> 0x30 <= #[trigger] bytes@[from + j] <= 0x37,
        decreases n - z,
    {
        let b = bytes[from + z];
        if b < 0x30 || b > 0x37 {
            return false;
        }
        z = z + 1;
    }
    true
}

/// The (name, content) views of a parsed pair sequence.
pub open spec fn pairs_view(v: Seq<(Vec<u8>, Vec<u8>)>) -> Seq<(Seq<u8>, Seq<u8>)> {
    Seq::new(v.len(), |i: int| (v[i].0@, v[i].1@))
}

/// Parse one member at `pos`: its name, its content, and where the next
/// member starts. `None` when the reader spec rejects the bytes at `pos`.
#[verifier::rlimit(100)]
fn parse_member(bytes: &Vec<u8>, pos: usize) -> (r: Option<(Vec<u8>, Vec<u8>, usize)>)
    requires
        pos <= bytes@.len(),
        bytes@.skip(pos as int) != zeros(1024),
    ensures
        (r is None ==> decode_spec(bytes@.skip(pos as int)) is None),
        (r matches Some(m) ==> pos + 512 <= m.2 <= bytes@.len() && decode_spec(
            bytes@.skip(pos as int),
        ) == (match decode_spec(bytes@.skip(m.2 as int)) {
            Option::None => Option::<Seq<(Seq<u8>, Seq<u8>)>>::None,
            Option::Some(rest) => Option::Some(seq![(m.0@, m.1@)] + rest),
        })),
{
    broadcast use lemma_octal_len;

    proof {
        vstd::std_specs::vec::axiom_spec_len(bytes);
    }
    let rem = bytes.len() - pos;
    let ghost suffix = bytes@.skip(pos as int);
    proof {
        assert(suffix.len() == rem);
        assert(forall|k: int| 0 <= k < rem ==> suffix[k] == #[trigger] bytes@[pos + k]);
    }
        if rem < 512 {
            return None;
        }
        let ghost h = suffix.subrange(0, 512);
        proof {
            assert(forall|k: int| 0 <= k < 512 ==> #[trigger] h[k] == bytes@[pos + k]);
        }
        let header_good = bytes[pos] != 0 && region_octal(bytes, pos + 124, 11) && bytes[pos
            + 135] == 0 && bytes[pos + 156] == 0x30;
        proof {
            assert(h.subrange(124, 135).len() == 11);
            assert(forall|j: int|
                0 <= j < 11 ==> #[trigger] h.subrange(124, 135)[j] == bytes@[pos + 124 + j]);
            if header_good {
                assert forall|i: int|
                    0 <= i < 11 implies 0x30 <= #[trigger] h.subrange(124, 135)[i] <= 0x37 by {
                    assert(h.subrange(124, 135)[i] == bytes@[pos + 124 + i]);
                }
                assert(header_ok(h));
            } else {
                assert(!header_ok(h)) by {
                    if header_ok(h) {
                        assert(bytes@[pos as int] == h[0]);
                        assert forall|j: int|
                            0 <= j < 11 implies 0x30 <= #[trigger] bytes@[pos + 124 + j]
                            <= 0x37 by {
                            assert(bytes@[pos + 124 + j] == h.subrange(124, 135)[j]);
                        }
                        assert(bytes@[pos + 135] == h[135]);
                        assert(bytes@[pos + 156] == h[156]);
                        assert(false);
                    }
                };
            }
        }
        if !header_good {
            return None;
        }
        let mut size: u64 = 0;
        let mut k: usize = 0;
        proof {
            assert(h.subrange(124, 124) =~= Seq::<u8>::empty());
        }
        while k < 11
            invariant
                k <= 11,
                pos + 512 <= bytes@.len(),
                bytes@.len() <= usize::MAX,
                h == bytes@.skip(pos as int).subrange(0, 512),
                h.len() == 512,
                all_octal(h.subrange(124, 135)),
                size == octal_val(h.subrange(124, 124 + k)),
                size < pow8(k as nat),
            decreases 11 - k,
        {
            let b = bytes[pos + 124 + k];
            proof {
                assert(h[124 + k] == bytes@[pos + 124 + k]);
                assert(h.subrange(124, 135)[k as int] == h[124 + k]);
                assert(0x30 <= b <= 0x37);
                assert(h.subrange(124, 124 + k + 1).drop_last() =~= h.subrange(124, 124 + k));
                assert(h.subrange(124, 124 + k + 1).last() == h[124 + k]);
                lemma_pow8_mono(k as nat, 10);
                reveal_with_fuel(pow8, 12);
                assert(pow8(10) == 0x4000_0000);
            }
            size = size * 8 + (b - 0x30) as u64;
            k = k + 1;
        }
        proof {
            assert(size as nat == header_size_of(h));
            lemma_pow8_mono(11, 11);
            reveal_with_fuel(pow8, 12);
            assert(size < 0x2_0000_0000);
        }
        let size_rem = size % 512;
        let pad: u64 = if size_rem == 0 {
            0
        } else {
            512 - size_rem
        };
        proof {
            assert(pad as nat == pad_len(size as nat));
        }
        let total: u64 = 512 + size + pad;
        if (rem as u64) < total {
            return None;
        }
        let size_us = size as usize;
        let pad_us = pad as usize;
        let total_us = 512 + size_us + pad_us;
        if !region_zero(bytes, pos + 512 + size_us, pad_us) {
            proof {
                assert(suffix.subrange(512 + size as int, total as int) != zeros(
                    pad_len(size as nat),
                )) by {
                    if suffix.subrange(512 + size as int, total as int) == zeros(
                        pad_len(size as nat),
                    ) {
                        assert(forall|j: int|
                            0 <= j < pad ==> #[trigger] bytes@[pos + 512 + size + j]
                                == suffix.subrange(512 + size as int, total as int)[j]);
                        assert(false);
                    }
                };
            }
            return None;
        }
        proof {
            assert forall|j: int|
                0 <= j < pad_len(size as nat) implies #[trigger] suffix.subrange(
                512 + size as int,
                total as int,
            )[j] == 0 by {
                assert(suffix.subrange(512 + size as int, total as int)[j] == suffix[512 + size
                    + j]);
                assert(suffix[512 + size + j] == bytes@[pos + (512 + size + j)]);
                assert(bytes@[pos + 512 + size_us + j] == 0);
            }
            assert(suffix.subrange(512 + size as int, total as int) =~= zeros(
                pad_len(size as nat),
            ));
        }
        let mut nl: usize = 0;
        while nl < 100 && bytes[pos + nl] != 0
            invariant
                nl <= 100,
                pos + 512 <= bytes@.len(),
                bytes@.len() <= usize::MAX,
                forall|j: int| 0 <= j < nl ==> #[trigger] bytes@[pos + j] != 0,
            decreases 100 - nl,
        {
            nl = nl + 1;
        }
        proof {
            assert(h.subrange(0, 100).len() == 100);
            assert(forall|j: int| 0 <= j < 100 ==> h.subrange(0, 100)[j] == bytes@[pos + j]);
            lemma_nul_len_at(h.subrange(0, 100), nl as int);
        }
        let mut name: Vec<u8> = Vec::new();
        let mut t: usize = 0;
        while t < nl
            invariant
                t <= nl,
                nl <= 100,
                pos + 512 <= bytes@.len(),
                bytes@.len() <= usize::MAX,
                name@.len() == t,
                forall|j: int| 0 <= j < t ==> name@[j] == bytes@[pos + j],
            decreases nl - t,
        {
            name.push(bytes[pos + t]);
            t = t + 1;
        }
        proof {
            assert(name@ =~= header_name_of(h));
        }
        let mut content: Vec<u8> = Vec::new();
        let mut t2: usize = 0;
        while t2 < size_us
            invariant
                t2 <= size_us,
                pos + 512 + size_us <= bytes@.len(),
                bytes@.len() <= usize::MAX,
                content@.len() == t2,
                forall|j: int| 0 <= j < t2 ==> content@[j] == bytes@[pos + 512 + j],
            decreases size_us - t2,
        {
            content.push(bytes[pos + 512 + t2]);
            t2 = t2 + 1;
        }
        proof {
            assert(content@ =~= suffix.subrange(512, 512 + size as int));
            assert(suffix.skip(total as int) =~= bytes@.skip(pos + total as int));
            assert(decode_spec(suffix) == (match decode_spec(bytes@.skip(pos + total as int)) {
                Option::None => Option::<Seq<(Seq<u8>, Seq<u8>)>>::None,
                Option::Some(rest) => Option::Some(
                    seq![(name@, content@)] + rest,
                ),
            }));
        }
    Some((name, content, pos + total_us))
}

/// Read a tar byte stream back into its (name, content) pairs, member by
/// member, exactly as the reader spec does: `None` when the bytes are not a
/// well-formed stream of regular-file members.
pub fn parse_archive(bytes: &Vec<u8>) -> (r: Option<Vec<(Vec<u8>, Vec<u8>)>>)
    ensures
        (r is Some <==> decode_spec(bytes@) is Some),
        (r matches Some(v) ==> decode_spec(bytes@) == Some(pairs_view(v@))),
{
    let mut acc: Vec<(Vec<u8>, Vec<u8>)> = Vec::new();
    let mut pos: usize = 0;
    proof {
        vstd::std_specs::vec::axiom_spec_len(bytes);
        assert(bytes@.skip(0) =~= bytes@);
        assert(pairs_view(acc@) =~= Seq::<(Seq<u8>, Seq<u8>)>::empty());
    }
    loop
        invariant
            pos <= bytes@.len(),
            bytes@.len() <= usize::MAX,
            (match decode_spec(bytes@.skip(pos as int)) {
                Option::None => decode_spec(bytes@) is None,
                Option::Some(rest) => decode_spec(bytes@) == Some(pairs_view(acc@) + rest),
            }),
        decreases bytes@.len() - pos,
    {
        let rem = bytes.len() - pos;
        let ghost suffix = bytes@.skip(pos as int);
        proof {
            assert(suffix.len() == rem);
            assert(forall|k: int| 0 <= k < rem ==> suffix[k] == #[trigger] bytes@[pos + k]);
        }
        let is_terminator = rem == 1024 && region_zero(bytes, pos, 1024);
        if is_terminator {
            proof {
                assert forall|j: int| 0 <= j < 1024 implies suffix[j] == 0 by {
                    assert(suffix[j] == bytes@[pos + j]);
                }
                assert(suffix =~= zeros(1024));
                assert(decode_spec(suffix) == Some(Seq::<(Seq<u8>, Seq<u8>)>::empty()));
                assert(pairs_view(acc@) + Seq::<(Seq<u8>, Seq<u8>)>::empty() =~= pairs_view(
                    acc@,
                ));
            }
            return Some(acc);
        }
        proof {
            assert(suffix != zeros(1024)) by {
                if suffix == zeros(1024) {
                    assert(rem == 1024);
                    assert forall|j: int| 0 <= j < 1024 implies #[trigger] bytes@[pos + j]
                        == 0 by {
                        assert(suffix[j] == bytes@[pos + j]);
                        assert(suffix[j] == zeros(1024)[j]);
                    }
                    assert(false);
                }
            };
        }
        match parse_member(bytes, pos) {
            Option::None => {
                return None;
            },
            Option::Some((name, content, next)) => {
                let ghost old_acc = acc@;
                acc.push((name, content));
                proof {
                    assert(pairs_view(acc@) =~= pairs_view(old_acc) + seq![
                        (acc@[old_acc.len() as int].0@, acc@[old_acc.len() as int].1@),
                    ]);
                    match decode_spec(bytes@.skip(next as int)) {
                        Option::None => {},
                        Option::Some(rest) => {
                            assert(pairs_view(old_acc) + (seq![
                                (acc@[old_acc.len() as int].0@, acc@[old_acc.len() as int].1@),
                            ] + rest) =~= pairs_view(acc@) + rest);
                        },
                    }
                }
                pos = next;
            },
        }
    }
}

} // verus!
