//! Minimal TLS ClientHello construction and parsing.
//!
//! The probe needs a well-formed ClientHello that carries an SNI extension, so
//! that real servers answer with a ServerHello and stateful DPI can read the
//! SNI.  The forwarder never builds a ClientHello: it forwards the real one of
//! the user's client and only needs [`find_sni_split_offset`] to know where to
//! cut the byte stream.

use vstd::prelude::*;
use vstd::string::StringSliceAdditionalSpecFns;

verus! {

// ---------------------------------------------------------------------------
// Wire encoding
// ---------------------------------------------------------------------------

/// Big-endian two-byte encoding of `n`, keeping the low 16 bits (what a
/// `as u16` cast followed by `to_be_bytes` writes).
pub open spec fn u16_be(n: int) -> Seq<u8> {
    seq![((n / 256) % 256) as u8, (n % 256) as u8]
}

/// Big-endian three-byte encoding of `n`, keeping the low 24 bits.
pub open spec fn u24_be(n: int) -> Seq<u8> {
    seq![((n / 65536) % 256) as u8, ((n / 256) % 256) as u8, (n % 256) as u8]
}

/// The big-endian 16-bit number stored at `buf[i]`, `buf[i + 1]`.
pub open spec fn be16_at(buf: Seq<u8>, i: int) -> int {
    buf[i] as int * 256 + buf[i + 1] as int
}

/// One `server_name` entry: name_type host_name, length, name.
pub open spec fn server_name_entry(host: Seq<u8>) -> Seq<u8> {
    seq![0x00u8] + u16_be(host.len() as int) + host
}

/// The `server_name` extension (type 0x0000) carrying one host name.
pub open spec fn sni_extension(host: Seq<u8>) -> Seq<u8> {
    let entry = server_name_entry(host);
    u16_be(0) + u16_be(entry.len() + 2int) + u16_be(entry.len() as int) + entry
}

/// The `supported_groups` extension: x25519, secp256r1, secp384r1.
pub open spec fn supported_groups_extension() -> Seq<u8> {
    seq![0x00u8, 0x0a, 0x00, 0x08, 0x00, 0x06, 0x00, 0x1d, 0x00, 0x17, 0x00, 0x18]
}

/// The `ec_point_formats` extension: uncompressed only.
pub open spec fn ec_point_formats_extension() -> Seq<u8> {
    seq![0x00u8, 0x0b, 0x00, 0x02, 0x01, 0x00]
}

/// The `signature_algorithms` extension with eight schemes.
pub open spec fn signature_algorithms_extension() -> Seq<u8> {
    seq![
        0x00u8, 0x0d, 0x00, 0x12, 0x00, 0x10,
        0x04, 0x03, 0x08, 0x04, 0x04, 0x01, 0x05, 0x03,
        0x08, 0x05, 0x05, 0x01, 0x08, 0x06, 0x06, 0x01,
    ]
}

/// All extensions of the probe ClientHello, in order.
pub open spec fn hello_extensions(host: Seq<u8>) -> Seq<u8> {
    sni_extension(host) + supported_groups_extension() + ec_point_formats_extension()
        + signature_algorithms_extension()
}

/// The ten offered cipher suites, two bytes each.
pub open spec fn cipher_suites() -> Seq<u8> {
    seq![
        0xc0u8, 0x2b, 0xc0, 0x2f, 0xc0, 0x2c, 0xc0, 0x30, 0xcc, 0xa9,
        0xcc, 0xa8, 0x00, 0x9c, 0x00, 0x9d, 0x00, 0x2f, 0x00, 0x35,
    ]
}

/// The ClientHello body: TLS 1.2 version, random, empty session id, cipher
/// suites, null compression, extensions.
pub open spec fn hello_body(host: Seq<u8>, random: Seq<u8>) -> Seq<u8> {
    let ext = hello_extensions(host);
    seq![0x03u8, 0x03] + random + seq![0x00u8] + u16_be(20) + cipher_suites() + seq![
        0x01u8,
        0x00,
    ] + u16_be(ext.len() as int) + ext
}

/// The handshake message: type ClientHello, 24-bit length, body.
pub open spec fn hello_handshake(host: Seq<u8>, random: Seq<u8>) -> Seq<u8> {
    let body = hello_body(host, random);
    seq![0x01u8] + u24_be(body.len() as int) + body
}

/// The complete TLS record (content type handshake, record version TLS 1.0).
pub open spec fn client_hello_record(host: Seq<u8>, random: Seq<u8>) -> Seq<u8> {
    let hs = hello_handshake(host, random);
    seq![0x16u8, 0x03, 0x01] + u16_be(hs.len() as int) + hs
}

fn push_be16(out: &mut Vec<u8>, n: usize)
    ensures
        final(out)@ == old(out)@ + u16_be(n as int),
{
    out.push(((n / 256) % 256) as u8);
    out.push((n % 256) as u8);
}

fn push_all(out: &mut Vec<u8>, bytes: &[u8])
    ensures
        final(out)@ == old(out)@ + bytes@,
{
    let ghost start = out@;
    let mut i: usize = 0;
    while i < bytes.len()
        invariant
            i <= bytes@.len(),
            out@ == start + bytes@.subrange(0, i as int),
        decreases bytes@.len() - i,
    {
        out.push(bytes[i]);
        i = i + 1;
        assert(out@ =~= start + bytes@.subrange(0, i as int));
    }
    assert(bytes@.subrange(0, i as int) =~= bytes@);
}

fn push_list(out: &mut Vec<u8>, bytes: &Vec<u8>)
    ensures
        final(out)@ == old(out)@ + bytes@,
{
    push_all(out, bytes.as_slice());
}

fn build_sni_extension(host: &[u8]) -> (ext: Vec<u8>)
    ensures
        ext@ == sni_extension(host@),
{
    let mut entry: Vec<u8> = Vec::new();
    entry.push(0x00);
    push_be16(&mut entry, host.len());
    push_all(&mut entry, host);
    assert(entry@ =~= server_name_entry(host@));

    let mut ext: Vec<u8> = Vec::new();
    push_be16(&mut ext, 0);
    push_be16(&mut ext, (entry.len() % 65536 + 2) as usize);
    push_be16(&mut ext, entry.len());
    push_list(&mut ext, &entry);
    assert(u16_be((entry@.len() % 65536 + 2) as int) =~= u16_be(entry@.len() + 2 as int)) by {
        lemma_u16_be_mod(entry@.len() + 2 as int);
        lemma_u16_be_mod((entry@.len() % 65536 + 2) as int);
        assert((entry@.len() + 2) % 65536 == ((entry@.len() % 65536 + 2) as int) % 65536)
            by (nonlinear_arith);
    }
    assert(ext@ =~= sni_extension(host@));
    ext
}

fn build_extensions(host: &[u8]) -> (ext: Vec<u8>)
    ensures
        ext@ == hello_extensions(host@),
{
    let mut ext = build_sni_extension(host);
    let ghost sni_part = ext@;
    // supported_groups
    push_be16(&mut ext, 0x000a);
    push_be16(&mut ext, 8);
    push_be16(&mut ext, 6);
    push_be16(&mut ext, 0x001d);
    push_be16(&mut ext, 0x0017);
    push_be16(&mut ext, 0x0018);
    assert(ext@ =~= sni_part + supported_groups_extension());
    // ec_point_formats
    push_be16(&mut ext, 0x000b);
    push_be16(&mut ext, 2);
    ext.push(0x01);
    ext.push(0x00);
    assert(ext@ =~= sni_part + supported_groups_extension() + ec_point_formats_extension());
    let ghost before_sig = ext@;
    // signature_algorithms
    push_be16(&mut ext, 0x000d);
    push_be16(&mut ext, 18);
    push_be16(&mut ext, 16);
    push_be16(&mut ext, 0x0403);
    push_be16(&mut ext, 0x0804);
    push_be16(&mut ext, 0x0401);
    push_be16(&mut ext, 0x0503);
    push_be16(&mut ext, 0x0805);
    push_be16(&mut ext, 0x0501);
    push_be16(&mut ext, 0x0806);
    push_be16(&mut ext, 0x0601);
    assert(ext@ =~= before_sig + signature_algorithms_extension());
    assert(ext@ =~= hello_extensions(host@));
    ext
}

fn build_body(host: &[u8], random: &[u8]) -> (body: Vec<u8>)
    ensures
        body@ == hello_body(host@, random@),
{
    let ext = build_extensions(host);
    let mut body: Vec<u8> = Vec::new();
    push_be16(&mut body, 0x0303);
    push_all(&mut body, random);
    body.push(0x00);
    push_be16(&mut body, 20);
    let ghost head = body@;
    push_be16(&mut body, 0xc02b);
    push_be16(&mut body, 0xc02f);
    push_be16(&mut body, 0xc02c);
    push_be16(&mut body, 0xc030);
    push_be16(&mut body, 0xcca9);
    push_be16(&mut body, 0xcca8);
    push_be16(&mut body, 0x009c);
    push_be16(&mut body, 0x009d);
    push_be16(&mut body, 0x002f);
    push_be16(&mut body, 0x0035);
    assert(body@ =~= head + cipher_suites());
    body.push(0x01);
    body.push(0x00);
    push_be16(&mut body, ext.len());
    push_list(&mut body, &ext);
    assert(body@ =~= hello_body(host@, random@));
    body
}

/// The ClientHello record for `sni` with the given 32-byte random field.
pub fn client_hello_with_random(sni: &str, random: &[u8]) -> (record: Vec<u8>)
    ensures
        record@ == client_hello_record(sni.spec_bytes(), random@),
{
    let host = sni.as_bytes();
    let body = build_body(host, random);

    // handshake header
    let blen = body.len();
    let mut handshake: Vec<u8> = Vec::new();
    handshake.push(0x01);
    handshake.push(((blen / 65536) % 256) as u8);
    handshake.push(((blen / 256) % 256) as u8);
    handshake.push((blen % 256) as u8);
    push_list(&mut handshake, &body);
    assert(handshake@ =~= hello_handshake(host@, random@));

    // record header
    let mut record: Vec<u8> = Vec::new();
    record.push(0x16);
    push_be16(&mut record, 0x0301);
    push_be16(&mut record, handshake.len());
    push_list(&mut record, &handshake);
    assert(record@ =~= client_hello_record(host@, random@));
    record
}

/// `u16_be` only depends on the low 16 bits of its argument.
pub proof fn lemma_u16_be_mod(n: int)
    requires
        n >= 0,
    ensures
        u16_be(n) == u16_be(n % 65536),
{
    assert((n / 256) % 256 == ((n % 65536) / 256) % 256) by (nonlinear_arith)
        requires
            n >= 0,
    ;
    assert(n % 256 == (n % 65536) % 256) by (nonlinear_arith)
        requires
            n >= 0,
    ;
}


// ---------------------------------------------------------------------------
// Client random
// ---------------------------------------------------------------------------

/// Multiplier of the xorshift64* generator.
pub const XORSHIFT_MULTIPLIER: u64 = 0x2545F4914F6CDD1D;

/// Seed used when the system clock reads before the Unix epoch.
pub const FALLBACK_SEED: u64 = 0x9E3779B97F4A7C15;

/// One xorshift64 state transition.
pub open spec fn xorshift(s: u64) -> u64 {
    let a = s ^ (s >> 12u64);
    let b = a ^ (a << 25u64);
    b ^ (b >> 27u64)
}

/// The `n` low-order bytes of `v`, least significant first.
pub open spec fn le_bytes(v: u64, n: nat) -> Seq<u8>
    decreases n,
{
    if n == 0 {
        seq![]
    } else {
        seq![(v % 256) as u8] + le_bytes(v / 256, (n - 1) as nat)
    }
}

/// `words` outputs of xorshift64* started from `state`, each written as eight
/// little-endian bytes.
pub open spec fn random_stream(state: u64, words: nat) -> Seq<u8>
    decreases words,
{
    if words == 0 {
        seq![]
    } else {
        let next = xorshift(state);
        le_bytes(next.wrapping_mul(XORSHIFT_MULTIPLIER), 8) + random_stream(next, (words - 1) as nat)
    }
}

/// The 32-byte ClientHello random derived from `seed`.
pub open spec fn client_random_bytes(seed: u64) -> Seq<u8> {
    random_stream(seed, 4)
}

pub proof fn lemma_le_bytes_len(v: u64, n: nat)
    ensures
        le_bytes(v, n).len() == n,
    decreases n,
{
    if n > 0 {
        lemma_le_bytes_len(v / 256, (n - 1) as nat);
    }
}

pub proof fn lemma_random_stream_len(state: u64, words: nat)
    ensures
        random_stream(state, words).len() == 8 * words,
    decreases words,
{
    if words > 0 {
        let next = xorshift(state);
        lemma_le_bytes_len(next.wrapping_mul(XORSHIFT_MULTIPLIER), 8);
        lemma_random_stream_len(next, (words - 1) as nat);
    }
}

fn push_le_bytes(out: &mut Vec<u8>, v: u64)
    ensures
        final(out)@ == old(out)@ + le_bytes(v, 8),
{
    let ghost start = out@;
    let mut w = v;
    let mut i: u64 = 0;
    while i < 8
        invariant
            i <= 8,
            out@ + le_bytes(w, (8 - i) as nat) == start + le_bytes(v, 8),
        decreases 8 - i,
    {
        let ghost prev = out@;
        let ghost old_w = w;
        let ghost rem = (8 - i) as nat;
        assert(le_bytes(old_w, rem) == seq![(old_w % 256) as u8] + le_bytes(
            old_w / 256,
            (rem - 1) as nat,
        ));
        out.push((w % 256) as u8);
        w = w / 256;
        i = i + 1;
        assert(out@ + le_bytes(w, (8 - i) as nat) =~= prev + le_bytes(old_w, rem));
    }
    assert(le_bytes(w, 0) =~= Seq::<u8>::empty());
    assert(out@ =~= start + le_bytes(v, 8));
}

fn client_random(seed: u64) -> (random: Vec<u8>)
    ensures
        random@ == client_random_bytes(seed),
        random@.len() == 32,
{
    let mut state = seed;
    let mut out: Vec<u8> = Vec::new();
    let mut k: u64 = 0;
    while k < 4
        invariant
            k <= 4,
            out@ + random_stream(state, (4 - k) as nat) == random_stream(seed, 4),
        decreases 4 - k,
    {
        let ghost prev = out@;
        let ghost old_state = state;
        state = state ^ (state >> 12u64);
        state = state ^ (state << 25u64);
        state = state ^ (state >> 27u64);
        assert(state == xorshift(old_state));
        let v = state.wrapping_mul(XORSHIFT_MULTIPLIER);
        push_le_bytes(&mut out, v);
        k = k + 1;
        assert(out@ + random_stream(state, (4 - k) as nat) =~= prev + random_stream(
            old_state,
            (4 - (k - 1)) as nat,
        ));
    }
    assert(random_stream(state, 0) =~= Seq::<u8>::empty());
    assert(out@ =~= random_stream(seed, 4));
    proof {
        lemma_random_stream_len(seed, 4);
    }
    out
}

#[verifier::external_type_specification]
#[verifier::external_body]
pub struct ExSystemTime(std::time::SystemTime);

/// Calls `std::time::SystemTime::now`.  The reading depends on the machine's
/// clock, so nothing is stated of it.
#[verifier::external_body]
fn system_time_now() -> std::time::SystemTime {
    std::time::SystemTime::now()
}

/// Calls `SystemTime::duration_since` with `UNIX_EPOCH`.  The result depends
/// on the clock reading; nothing is stated of it beyond its type (`None`
/// stands for a reading before the epoch).
#[verifier::external_body]
fn elapsed_since_unix_epoch(t: &std::time::SystemTime) -> Option<std::time::Duration> {
    t.duration_since(std::time::UNIX_EPOCH).ok()
}

/// Calls `Duration::as_nanos`.  `Duration` is opaque to the verifier, so
/// nothing is stated of the number it returns.
#[verifier::external_body]
fn duration_as_nanos(d: &std::time::Duration) -> u128 {
    d.as_nanos()
}

/// The seed for a clock reading of `nanos` nanoseconds since the Unix epoch
/// in the process `pid`: the reading truncated to 64 bits (or
/// [`FALLBACK_SEED`] when the clock reads before the epoch, `None`), xored
/// with the process id times [`XORSHIFT_MULTIPLIER`] (wrapping), so that
/// processes started in the same instant still differ.
pub open spec fn seed_for_reading(nanos: Option<u128>, pid: u32) -> u64 {
    let base: u64 = match nanos {
        Some(n) => (n % 0x1_0000_0000_0000_0000) as u64,
        None => FALLBACK_SEED,
    };
    base ^ (pid as u64).wrapping_mul(XORSHIFT_MULTIPLIER)
}

fn seed_from_reading(nanos: Option<u128>, pid: u32) -> (seed: u64)
    ensures
        seed == seed_for_reading(nanos, pid),
{
    let base: u64 = match nanos {
        Some(n) => (n % 0x1_0000_0000_0000_0000) as u64,
        None => FALLBACK_SEED,
    };
    base ^ (pid as u64).wrapping_mul(XORSHIFT_MULTIPLIER)
}

/// Reads the wall clock: the nanoseconds elapsed since the Unix epoch, or
/// `None` when the clock reads before it.  The reading is arbitrary, so
/// nothing is stated of it.
fn clock_reading() -> Option<u128> {
    let now = system_time_now();
    match elapsed_since_unix_epoch(&now) {
        Some(d) => Some(duration_as_nanos(&d)),
        None => None,
    }
}

/// Build a TLS 1.2 ClientHello record carrying the given SNI hostname, for a
/// clock reading of `nanos` nanoseconds since the Unix epoch (`None` before
/// it) in the process whose id is `pid`: its random field is the xorshift64*
/// stream of [`seed_for_reading`]`(nanos, pid)`.
pub fn build_client_hello_for_reading(sni: &str, nanos: Option<u128>, pid: u32) -> (record: Vec<u8>)
    ensures
        record@ == client_hello_record(
            sni.spec_bytes(),
            client_random_bytes(seed_for_reading(nanos, pid)),
        ),
{
    let seed = seed_from_reading(nanos, pid);
    let random = client_random(seed);
    client_hello_with_random(sni, random.as_slice())
}

/// Build a TLS 1.2 ClientHello record carrying the given SNI hostname, for
/// the process whose id is `pid`.
///
/// The record is complete (content type handshake 0x16) and ready to be
/// written to a TCP stream.  Its 32-byte random field is the xorshift64*
/// stream of a seed read from the wall clock and mixed with `pid`
/// (see [`build_client_hello_for_reading`]); everything else is fixed by `sni`.
pub fn build_client_hello_for_process(sni: &str, pid: u32) -> (record: Vec<u8>)
    ensures
        exists|nanos: Option<u128>| record@ == #[trigger] client_hello_record(
            sni.spec_bytes(),
            client_random_bytes(seed_for_reading(nanos, pid)),
        ),
{
    let reading = clock_reading();
    build_client_hello_for_reading(sni, reading, pid)
}

/// Build a TLS 1.2 ClientHello record carrying the given SNI hostname, with
/// no process id to mix into the seed (as for process id 0): the random
/// field comes from the wall clock alone.  A caller that knows its process
/// id uses [`build_client_hello_for_process`].
pub fn build_client_hello(sni: &str) -> (record: Vec<u8>)
    ensures
        exists|seed: u64| record@ == #[trigger] client_hello_record(
            sni.spec_bytes(),
            client_random_bytes(seed),
        ),
{
    build_client_hello_for_process(sni, 0)
}

// ---------------------------------------------------------------------------
// Locating the SNI in a client's first flight
// ---------------------------------------------------------------------------

/// Walks the extension list of a ClientHello from offset `p` up to `ext_end`
/// looking for the `server_name` extension; see [`sni_split_offset`].
pub open spec fn scan_extensions(buf: Seq<u8>, p: int, ext_end: int) -> Option<int>
    decreases buf.len() + 65540 - p,
    when 0 <= p && ext_end <= buf.len()
{
    if p + 4 <= ext_end {
        let ext_type = be16_at(buf, p);
        let ext_len = be16_at(buf, p + 2);
        let body = p + 4;
        if ext_type == 0 {
            if body + 5 <= buf.len() {
                let name_len = be16_at(buf, body + 3);
                let name_start = body + 5;
                if name_start + name_len <= buf.len() && name_len >= 2 {
                    Some(name_start + name_len / 2)
                } else {
                    None
                }
            } else {
                None
            }
        } else {
            scan_extensions(buf, body + ext_len, ext_end)
        }
    } else {
        None
    }
}

/// Where to cut `buf` so that the host name of its SNI is split in two: the
/// middle of the host name of the first `server_name` extension, when `buf`
/// starts with a TLS handshake record holding a ClientHello whose fields up
/// to that host name are present; `None` otherwise (also for a host name
/// shorter than two bytes).  The extension list is read up to its declared
/// end or the end of `buf`, whichever comes first.
pub open spec fn sni_split_offset(buf: Seq<u8>) -> Option<int> {
    if buf.len() < 5 || buf[0] != 0x16 {
        None
    } else if buf.len() < 9 || buf[5] != 0x01 {
        None
    } else if buf.len() < 44 {
        None
    } else {
        let p1 = 44 + buf[43] as int;  // after the session id
        if buf.len() < p1 + 2 {
            None
        } else {
            let p2 = p1 + 2 + be16_at(buf, p1);  // after the cipher suites
            if buf.len() < p2 + 1 {
                None
            } else {
                let p3 = p2 + 1 + buf[p2] as int;  // after the compression methods
                if buf.len() < p3 + 2 {
                    None
                } else {
                    let ext_start = p3 + 2;
                    let declared_end = ext_start + be16_at(buf, p3);
                    let ext_end = if declared_end < buf.len() {
                        declared_end
                    } else {
                        buf.len() as int
                    };
                    scan_extensions(buf, ext_start, ext_end)
                }
            }
        }
    }
}

fn read_be16(buf: &[u8], i: usize) -> (v: usize)
    requires
        i + 1 < buf@.len(),
    ensures
        v == be16_at(buf@, i as int),
        v <= 65535,
{
    buf[i] as usize * 256 + buf[i + 1] as usize
}

/// Given the first bytes of a real client's traffic (expected to be a TLS
/// ClientHello), locate a byte offset inside the SNI host name, so that no
/// single TCP segment cut there contains the whole host name.
///
/// Returns `None` if the buffer does not look like a ClientHello with an SNI.
pub fn find_sni_split_offset(buf: &[u8]) -> (offset: Option<usize>)
    requires
        buf@.len() <= isize::MAX,
    ensures
        offset matches Some(o) ==> sni_split_offset(buf@) == Some(o as int) && 0 < o < buf@.len(),
        offset is None ==> sni_split_offset(buf@) is None,
{
    let len = buf.len();
    // TLS record header: type(1) version(2) length(2)
    if len < 5 || buf[0] != 0x16 {
        return None;
    }
    // Handshake header begins at offset 5: type(1) length(3)
    let mut p: usize = 5;
    if len < p + 4 || buf[p] != 0x01 {
        return None;
    }
    p = p + 4;
    // client_version(2) + random(32)
    p = p + 2 + 32;
    if len < p + 1 {
        return None;
    }
    // session_id
    let sid_len = buf[p] as usize;
    p = p + 1 + sid_len;
    if len < p + 2 {
        return None;
    }
    // cipher_suites
    let cs_len = read_be16(buf, p);
    p = p + 2 + cs_len;
    if len < p + 1 {
        return None;
    }
    // compression_methods
    let cm_len = buf[p] as usize;
    p = p + 1 + cm_len;
    if len < p + 2 {
        return None;
    }
    // extensions
    let ext_total = read_be16(buf, p);
    p = p + 2;
    let ext_end = if p + ext_total < len {
        p + ext_total
    } else {
        len
    };
    while p + 4 <= ext_end
        invariant
            len == buf@.len(),
            len <= isize::MAX,
            ext_end <= len,
            p <= len + 65540,
            sni_split_offset(buf@) == scan_extensions(buf@, p as int, ext_end as int),
        decreases len + 65540 - p,
    {
        let ext_type = read_be16(buf, p);
        let ext_len = read_be16(buf, p + 2);
        let ext_body = p + 4;
        if ext_type == 0 {
            // server_name extension: list_len(2) name_type(1) name_len(2) name...
            if ext_body + 5 <= len {
                let name_len = read_be16(buf, ext_body + 3);
                let name_start = ext_body + 5;
                if name_start + name_len <= len && name_len >= 2 {
                    // Split in the middle of the host name so neither half is whole.
                    return Some(name_start + name_len / 2);
                }
            }
            return None;
        }
        p = ext_body + ext_len;
    }
    None
}

// ---------------------------------------------------------------------------
// Laws
// ---------------------------------------------------------------------------

pub proof fn lemma_u16_be_decodes(n: int)
    requires
        0 <= n < 65536,
    ensures
        u16_be(n).len() == 2,
        be16_at(u16_be(n), 0) == n,
{
    assert(((n / 256) % 256) * 256 + n % 256 == n) by (nonlinear_arith)
        requires
            0 <= n < 65536,
    ;
}

/// Byte lengths of the pieces of the probe ClientHello.
pub proof fn lemma_hello_lengths(host: Seq<u8>, random: Seq<u8>)
    ensures
        sni_extension(host).len() == host.len() + 9,
        hello_extensions(host).len() == host.len() + 49,
        hello_body(host, random).len() == random.len() + host.len() + 78,
        hello_handshake(host, random).len() == random.len() + host.len() + 82,
        client_hello_record(host, random).len() == random.len() + host.len() + 87,
{
}

/// Where the pieces of the probe ClientHello sit in the record.
proof fn lemma_hello_layout(host: Seq<u8>, random: Seq<u8>)
    requires
        random.len() == 32,
    ensures
        client_hello_record(host, random).subrange(9, host.len() + 119int) == hello_body(
            host,
            random,
        ),
        client_hello_record(host, random).subrange(70, host.len() + 119int) == hello_extensions(
            host,
        ),
        client_hello_record(host, random).subrange(76, 79 + host.len() as int) == server_name_entry(
            host,
        ),
        client_hello_record(host, random).subrange(79, 79 + host.len() as int) == host,
        client_hello_record(host, random).len() == host.len() + 119,
{
    let r = client_hello_record(host, random);
    let hs = hello_handshake(host, random);
    let body = hello_body(host, random);
    let ext = hello_extensions(host);
    let sni = sni_extension(host);
    let entry = server_name_entry(host);
    lemma_hello_lengths(host, random);
    let l = host.len() as int;
    assert(r.subrange(5, r.len() as int) =~= hs);
    assert(hs.subrange(4, hs.len() as int) =~= body);
    assert(r.subrange(9, r.len() as int) =~= body);
    assert(body.subrange(61, body.len() as int) =~= ext);
    assert(r.subrange(70, r.len() as int) =~= ext);
    assert(ext.subrange(0, l + 9) =~= sni);
    assert(sni.subrange(6, l + 9) =~= entry);
    assert(r.subrange(76, 79 + l) =~= entry);
    assert(entry.subrange(3, l + 3) =~= host);
    assert(r.subrange(79, 79 + l) =~= host);
}

/// The header fields that the SNI locator reads, in a probe ClientHello.
proof fn lemma_hello_fields(host: Seq<u8>, random: Seq<u8>)
    requires
        random.len() == 32,
        host.len() <= 65486,
    ensures
        client_hello_record(host, random)[0] == 0x16,
        client_hello_record(host, random)[5] == 0x01,
        client_hello_record(host, random)[43] == 0,
        be16_at(client_hello_record(host, random), 44) == 20,
        client_hello_record(host, random)[66] == 1,
        be16_at(client_hello_record(host, random), 68) == host.len() + 49,
        be16_at(client_hello_record(host, random), 70) == 0,
        be16_at(client_hello_record(host, random), 77) == host.len(),
{
    let r = client_hello_record(host, random);
    let body = hello_body(host, random);
    let ext = hello_extensions(host);
    let entry = server_name_entry(host);
    let l = host.len() as int;
    lemma_hello_layout(host, random);
    lemma_hello_lengths(host, random);
    assert(r[43] == body[34]);
    lemma_u16_be_decodes(20);
    assert(r[44] == body[35] && r[45] == body[36]);
    assert(r[66] == body[57]);
    lemma_u16_be_decodes(ext.len() as int);
    assert(r[68] == body[59] && r[69] == body[60]);
    lemma_u16_be_decodes(0);
    assert(r[70] == ext[0] && r[71] == ext[1]);
    lemma_u16_be_decodes(l);
    assert(r[77] == entry[1] && r[78] == entry[2]);
}

/// The SNI split offset of a probe ClientHello lies strictly inside its host
/// name: for every host name of at least two bytes whose extension block
/// still fits the 16-bit length field, the offset is the middle of the host
/// name, which starts at byte 79 of the record; a shorter host name gives no
/// offset.
pub proof fn lemma_split_offset_inside_built_hostname(host: Seq<u8>, random: Seq<u8>)
    requires
        random.len() == 32,
        host.len() <= 65486,
    ensures
        host.len() >= 2 ==> sni_split_offset(client_hello_record(host, random)) == Some(
            79 + host.len() as int / 2,
        ),
        host.len() >= 2 ==> 79 < 79 + host.len() / 2 < 79 + host.len(),
        host.len() < 2 ==> sni_split_offset(client_hello_record(host, random)) is None,
        client_hello_record(host, random).subrange(79, 79 + host.len() as int) == host,
{
    let r = client_hello_record(host, random);
    let l = host.len() as int;
    lemma_hello_layout(host, random);
    lemma_hello_fields(host, random);
    if l >= 2 {
        assert(scan_extensions(r, 70, l + 119) == Some(79 + l / 2));
    } else {
        assert(scan_extensions(r, 70, l + 119) is None);
    }
}

/// A probe ClientHello is a well-formed record: content type handshake, a
/// record length equal to the bytes that follow the record header, message
/// type ClientHello and a handshake length equal to the bytes that follow the
/// handshake header, whenever the host name keeps the record below 64 KiB.
pub proof fn lemma_built_hello_wellformed(host: Seq<u8>, random: Seq<u8>)
    requires
        random.len() == 32,
        host.len() <= 65421,
    ensures
        client_hello_record(host, random)[0] == 0x16,
        be16_at(client_hello_record(host, random), 3) == client_hello_record(host, random).len()
            - 5,
        client_hello_record(host, random)[5] == 0x01,
        client_hello_record(host, random)[6] as int * 65536 + client_hello_record(host, random)[7]
            as int * 256 + client_hello_record(host, random)[8] as int == client_hello_record(
            host,
            random,
        ).len() - 9,
{
    let r = client_hello_record(host, random);
    let hs = hello_handshake(host, random);
    let n = hs.len() as int;
    let b = hello_body(host, random).len() as int;
    lemma_hello_lengths(host, random);
    lemma_u16_be_decodes(n);
    assert(r[3] == u16_be(n)[0] && r[4] == u16_be(n)[1]);
    assert(((b / 65536) % 256) * 65536 + ((b / 256) % 256) * 256 + b % 256 == b)
        by (nonlinear_arith)
        requires
            0 <= b < 65536,
    ;
}

// ---------------------------------------------------------------------------
// Any ClientHello
// ---------------------------------------------------------------------------

/// A handshake record carrying a ClientHello with the given body: record
/// header (handshake, TLS 1.0, 16-bit length) and handshake header
/// (ClientHello, 24-bit length).
#[verifier::opaque]
pub open spec fn client_hello_of_body(body: Seq<u8>) -> Seq<u8> {
    let handshake = seq![0x01u8] + u24_be(body.len() as int) + body;
    seq![0x16u8, 0x03, 0x01] + u16_be(handshake.len() as int) + handshake
}

/// A ClientHello body laid out as RFC 5246 / RFC 8446 give it: legacy
/// version TLS 1.2, the 32-byte `random`, then the `session_id`,
/// `cipher_suites`, `compression_methods` and `extensions` vectors, each
/// after its length (one byte, two, one and two bytes).
#[verifier::opaque]
pub open spec fn tls_hello_body(
    random: Seq<u8>,
    session_id: Seq<u8>,
    cipher_suites: Seq<u8>,
    compression_methods: Seq<u8>,
    extensions: Seq<u8>,
) -> Seq<u8> {
    seq![0x03u8, 0x03] + random + seq![session_id.len() as u8] + session_id + u16_be(
        cipher_suites.len() as int,
    ) + cipher_suites + seq![compression_methods.len() as u8] + compression_methods + u16_be(
        extensions.len() as int,
    ) + extensions
}

/// The TLS ClientHello record of the given fields.
pub open spec fn tls_client_hello(
    random: Seq<u8>,
    session_id: Seq<u8>,
    cipher_suites: Seq<u8>,
    compression_methods: Seq<u8>,
    extensions: Seq<u8>,
) -> Seq<u8> {
    client_hello_of_body(
        tls_hello_body(random, session_id, cipher_suites, compression_methods, extensions),
    )
}

/// One extension on the wire: its type, the length of its data, its data.
pub open spec fn extension_bytes(ext_type: u16, data: Seq<u8>) -> Seq<u8> {
    u16_be(ext_type as int) + u16_be(data.len() as int) + data
}

/// A list of extensions on the wire, in order.
pub open spec fn extension_list(exts: Seq<(u16, Seq<u8>)>) -> Seq<u8>
    decreases exts.len(),
{
    if exts.len() == 0 {
        seq![]
    } else {
        extension_bytes(exts[0].0, exts[0].1) + extension_list(exts.drop_first())
    }
}

/// Extensions other than `server_name` (type 0), each with at most 65535
/// bytes of data.
pub open spec fn other_extensions(exts: Seq<(u16, Seq<u8>)>) -> bool {
    forall|i: int| 0 <= i < exts.len() ==> (#[trigger] exts[i]).0 != 0 && exts[i].1.len() <= 65535
}

/// Where the host name of the `server_name` extension starts in a
/// ClientHello with a session id, cipher suites and compression methods of
/// the given lengths, after `earlier_extensions_len` bytes of other
/// extensions: 5 + 4 bytes of headers, 2 of version, 32 of random, the three
/// length-prefixed vectors, the 2-byte extensions length, the earlier
/// extensions and the 9 bytes of extension and `server_name` headers.
pub open spec fn host_name_start(
    session_id_len: int,
    cipher_suites_len: int,
    compression_methods_len: int,
    earlier_extensions_len: int,
) -> int {
    5 + 4 + 2 + 32 + (1 + session_id_len) + (2 + cipher_suites_len) + (1
        + compression_methods_len) + 2 + earlier_extensions_len + 9
}

proof fn lemma_record_of_body(body: Seq<u8>)
    ensures
        client_hello_of_body(body).len() == body.len() + 9,
        client_hello_of_body(body)[0] == 0x16,
        client_hello_of_body(body)[5] == 0x01,
        client_hello_of_body(body).subrange(9, body.len() + 9int) == body,
{
    reveal(client_hello_of_body);
    let r = client_hello_of_body(body);
    assert(r.subrange(9, body.len() + 9int) =~= body);
}

proof fn lemma_tls_body_fields(
    random: Seq<u8>,
    session_id: Seq<u8>,
    cipher_suites: Seq<u8>,
    compression_methods: Seq<u8>,
    extensions: Seq<u8>,
)
    requires
        random.len() == 32,
        session_id.len() <= 255,
        cipher_suites.len() <= 65535,
        compression_methods.len() <= 255,
        extensions.len() <= 65535,
    ensures
        ({
            let body = tls_hello_body(
                random,
                session_id,
                cipher_suites,
                compression_methods,
                extensions,
            );
            let s = session_id.len() as int;
            let c = cipher_suites.len() as int;
            let m = compression_methods.len() as int;
            &&& body.len() == 40 + s + c + m + extensions.len()
            &&& body[34] as int == s
            &&& be16_at(body, 35 + s) == c
            &&& body[37 + s + c] as int == m
            &&& be16_at(body, 38 + s + c + m) == extensions.len()
            &&& body.subrange(40 + s + c + m, body.len() as int) == extensions
        }),
{
    reveal(tls_hello_body);
    let s = session_id.len() as int;
    let c = cipher_suites.len() as int;
    let m = compression_methods.len() as int;
    let e = extensions.len() as int;
    let head = seq![0x03u8, 0x03] + random + seq![s as u8] + session_id;
    let mid = u16_be(c) + cipher_suites + seq![m as u8] + compression_methods;
    let tail = u16_be(e) + extensions;
    let body = tls_hello_body(random, session_id, cipher_suites, compression_methods, extensions);
    assert(body =~= head + mid + tail);
    lemma_u16_be_decodes(c);
    lemma_u16_be_decodes(e);
    assert(head.len() == 35 + s);
    assert(body[34] == head[34]);
    assert(body[35 + s] == mid[0] && body[36 + s] == mid[1]);
    assert(body[37 + s + c] == mid[2 + c]);
    assert(mid.len() == 3 + c + m);
    assert(body[38 + s + c + m] == tail[0] && body[39 + s + c + m] == tail[1]);
    assert(body.subrange(40 + s + c + m, body.len() as int) =~= extensions);
}

/// A buffer whose bytes from `q` on are a `server_name` extension followed by
/// anything: the extension walk from `q` finds the middle of its host name.
proof fn lemma_scan_leading_sni(buf: Seq<u8>, q: int, host: Seq<u8>, rest: Seq<u8>)
    requires
        0 <= q <= buf.len(),
        buf.subrange(q, buf.len() as int) == sni_extension(host) + rest,
        2 <= host.len() <= 65526,
    ensures
        buf.subrange(q + 9, q + 9 + host.len()) == host,
        scan_extensions(buf, q, buf.len() as int) == Some(q + 9 + host.len() / 2),
{
    let n = host.len() as int;
    let ext = sni_extension(host) + rest;
    let entry = server_name_entry(host);
    let sni = sni_extension(host);
    assert(ext.subrange(0, n + 9) =~= sni);
    assert(sni.subrange(6, n + 9) =~= entry);
    assert(entry.subrange(3, n + 3) =~= host);
    let t = buf.subrange(q, buf.len() as int);
    assert(sni.len() == n + 9);
    assert(t.len() == ext.len());
    assert(q + 9 + n <= buf.len());
    assert(buf.subrange(q + 9, q + 9 + n) =~= t.subrange(9, 9 + n));
    assert(ext.subrange(9, 9 + n) =~= host);
    lemma_u16_be_decodes(0);
    lemma_u16_be_decodes(n);
    assert(sni.len() == n + 9);
    assert(t.len() == ext.len());
    assert(t[0] == buf[q] && t[1] == buf[q + 1]);
    assert(t[7] == buf[q + 7] && t[8] == buf[q + 8]);
    assert(ext[0] == sni[0] && ext[1] == sni[1] && ext[7] == sni[7] && ext[8] == sni[8]);
    assert(buf[q] == ext[0] && buf[q + 1] == ext[1]);
    assert(buf[q + 7] == ext[7] && buf[q + 8] == ext[8]);
    assert(ext[7] == entry[1] && ext[8] == entry[2]);
    assert(be16_at(buf, q) == 0);
    assert(be16_at(buf, q + 7) == n);
}

/// A buffer whose bytes from `q` on are other extensions, then a
/// `server_name` extension, then anything: the extension walk from `q` skips
/// the other extensions and finds the middle of the host name.
proof fn lemma_scan_finds_sni(
    buf: Seq<u8>,
    q: int,
    earlier: Seq<(u16, Seq<u8>)>,
    host: Seq<u8>,
    rest: Seq<u8>,
)
    requires
        0 <= q <= buf.len(),
        buf.subrange(q, buf.len() as int) == extension_list(earlier) + sni_extension(host) + rest,
        other_extensions(earlier),
        2 <= host.len() <= 65526,
    ensures
        ({
            let at = q + extension_list(earlier).len() + 9;
            &&& buf.subrange(at, at + host.len()) == host
            &&& scan_extensions(buf, q, buf.len() as int) == Some(at + host.len() / 2)
        }),
    decreases earlier.len(),
{
    let t = buf.subrange(q, buf.len() as int);
    if earlier.len() == 0 {
        assert(extension_list(earlier) =~= Seq::<u8>::empty());
        assert(t =~= sni_extension(host) + rest);
        lemma_scan_leading_sni(buf, q, host, rest);
    } else {
        let (ty, data) = earlier[0];
        let first = extension_bytes(ty, data);
        let tail = earlier.drop_first();
        let d = data.len() as int;
        assert(extension_list(earlier) == first + extension_list(tail));
        assert(first.len() == 4 + d);
        assert(t =~= first + (extension_list(tail) + sni_extension(host) + rest));
        lemma_u16_be_decodes(ty as int);
        lemma_u16_be_decodes(d);
        assert(buf[q] == t[0] && buf[q + 1] == t[1] && buf[q + 2] == t[2] && buf[q + 3] == t[3]);
        assert(t[0] == first[0] && t[1] == first[1] && t[2] == first[2] && t[3] == first[3]);
        assert(be16_at(buf, q) == ty as int);
        assert(be16_at(buf, q + 2) == d);
        assert(ty != 0) by {
            assert(earlier[0].0 != 0);
        }
        assert(other_extensions(tail)) by {
            assert forall|i: int| 0 <= i < tail.len() implies (#[trigger] tail[i]).0 != 0
                && tail[i].1.len() <= 65535 by {
                assert(tail[i] == earlier[i + 1]);
            }
        }
        let q2 = q + 4 + d;
        assert(buf.subrange(q2, buf.len() as int) =~= t.subrange(4 + d, t.len() as int));
        assert(t.subrange(4 + d, t.len() as int) =~= extension_list(tail) + sni_extension(host)
            + rest);
        lemma_scan_finds_sni(buf, q2, tail, host, rest);
        assert(sni_extension(host).len() == host.len() + 9);
        assert(q + 4 <= buf.len());
    }
}

/// In every ClientHello whose first `server_name` extension holds a host
/// name of at least two bytes, whatever its session id, cipher suites,
/// compression methods, the other extensions before it and the extensions
/// after it, the SNI split offset is the middle of that host name, so it
/// lies strictly inside it.  Adding `n` bytes of session id (or of cipher
/// suites, compression methods or earlier extensions) moves the offset by
/// exactly `n`.
pub proof fn lemma_sni_offset_of_any_hello(
    random: Seq<u8>,
    session_id: Seq<u8>,
    cipher_suites: Seq<u8>,
    compression_methods: Seq<u8>,
    earlier_extensions: Seq<(u16, Seq<u8>)>,
    host: Seq<u8>,
    later_extensions: Seq<u8>,
)
    requires
        random.len() == 32,
        session_id.len() <= 255,
        cipher_suites.len() <= 65535,
        compression_methods.len() <= 255,
        other_extensions(earlier_extensions),
        host.len() >= 2,
        (extension_list(earlier_extensions) + sni_extension(host) + later_extensions).len()
            <= 65535,
    ensures
        ({
            let record = tls_client_hello(
                random,
                session_id,
                cipher_suites,
                compression_methods,
                extension_list(earlier_extensions) + sni_extension(host) + later_extensions,
            );
            let start = host_name_start(
                session_id.len() as int,
                cipher_suites.len() as int,
                compression_methods.len() as int,
                extension_list(earlier_extensions).len() as int,
            );
            &&& record.subrange(start, start + host.len()) == host
            &&& sni_split_offset(record) == Some(start + host.len() / 2)
            &&& start < start + host.len() / 2 < start + host.len()
        }),
{
    let ext = extension_list(earlier_extensions) + sni_extension(host) + later_extensions;
    let body = tls_hello_body(random, session_id, cipher_suites, compression_methods, ext);
    let record = client_hello_of_body(body);
    let s = session_id.len() as int;
    let c = cipher_suites.len() as int;
    let m = compression_methods.len() as int;
    lemma_record_of_body(body);
    lemma_tls_body_fields(random, session_id, cipher_suites, compression_methods, ext);
    let len = record.len() as int;
    let inner = record.subrange(9, len);
    assert(inner == body);
    assert(record[43] == inner[34]);
    assert(record[44 + s] == inner[35 + s] && record[45 + s] == inner[36 + s]);
    assert(record[46 + s + c] == inner[37 + s + c]);
    assert(record[47 + s + c + m] == inner[38 + s + c + m]);
    assert(record[48 + s + c + m] == inner[39 + s + c + m]);
    let ext_start = 49 + s + c + m;
    assert(record.subrange(ext_start, len) =~= inner.subrange(
        40 + s + c + m,
        body.len() as int,
    ));
    assert(sni_extension(host).len() == host.len() + 9);
    lemma_scan_finds_sni(record, ext_start, earlier_extensions, host, later_extensions);
}

/// The probe ClientHello is the ClientHello of its fields: an empty session
/// id, the ten cipher suites, the null compression method alone (the
/// compression-methods vector is `[0x00]`: byte 66 holds its length 1 and
/// byte 67 the method 0), and the four extensions with the SNI first.
pub proof fn lemma_probe_hello_fields(host: Seq<u8>, random: Seq<u8>)
    requires
        random.len() == 32,
    ensures
        client_hello_record(host, random) == tls_client_hello(
            random,
            seq![],
            cipher_suites(),
            seq![0x00u8],
            hello_extensions(host),
        ),
        client_hello_record(host, random)[66] == 1,
        client_hello_record(host, random)[67] == 0,
{
    reveal(tls_hello_body);
    reveal(client_hello_of_body);
    let ext = hello_extensions(host);
    let generic = seq![0x03u8, 0x03] + random + seq![0u8] + Seq::<u8>::empty() + u16_be(
        20,
    ) + cipher_suites() + seq![1u8] + seq![0x00u8] + u16_be(ext.len() as int) + ext;
    assert(hello_body(host, random) =~= generic);
    assert(client_hello_record(host, random) =~= tls_client_hello(
        random,
        seq![],
        cipher_suites(),
        seq![0x00u8],
        ext,
    ));
    let r = client_hello_record(host, random);
    assert(r[66] == generic[57]);
    assert(r[67] == generic[58]);
}

/// The length of a ClientHello record from its fields: 49 bytes of headers
/// and length prefixes (with the random) plus its vectors.
pub proof fn lemma_tls_client_hello_len(
    random: Seq<u8>,
    session_id: Seq<u8>,
    cipher_suites: Seq<u8>,
    compression_methods: Seq<u8>,
    extensions: Seq<u8>,
)
    ensures
        tls_client_hello(random, session_id, cipher_suites, compression_methods, extensions).len()
            == 17 + random.len() + session_id.len() + cipher_suites.len()
            + compression_methods.len() + extensions.len(),
{
    reveal(tls_hello_body);
    reveal(client_hello_of_body);
}

} // verus!
