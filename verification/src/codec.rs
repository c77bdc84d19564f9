//! The command log codec.
//!
//! A segment file is a concatenation of records, each the encoding of one
//! [`Command`].  A record is self-delimiting: a one-byte tag, then the key
//! preceded by its 8-byte little-endian length, and for `Put` the value
//! preceded by its 8-byte little-endian length.  The decoder reports exactly
//! how many bytes one record occupies, so sequential records can be parsed
//! back-to-back and the replay logic learns precise byte offsets.

use vstd::prelude::*;

use crate::KvsError;

verus! {

/// Tag byte that opens the encoding of a `Put` record.
pub const TAG_PUT: u8 = 0;

/// Tag byte that opens the encoding of a `Remove` record.
pub const TAG_REMOVE: u8 = 1;

/// A durable log record: the unit of what the store appends to a segment.
#[derive(Debug, PartialEq, Eq)]
pub enum Command {
    /// Bind a key to a value.
    Put(Vec<u8>, Vec<u8>),
    /// Delete a key.
    Remove(Vec<u8>),
}

/// The mathematical value of a [`Command`]: the same two variants over
/// byte sequences.
pub enum CommandV {
    Put { key: Seq<u8>, value: Seq<u8> },
    Remove { key: Seq<u8> },
}

impl View for Command {
    type V = CommandV;

    open spec fn view(&self) -> CommandV {
        match self {
            Command::Put(k, v) => CommandV::Put { key: k@, value: v@ },
            Command::Remove(k) => CommandV::Remove { key: k@ },
        }
    }
}

/// 256 to the power `k`: the number of values `k` bytes can hold.
pub open spec fn pow256(k: nat) -> nat
    decreases k,
{
    if k == 0 {
        1
    } else {
        256 * pow256((k - 1) as nat)
    }
}

/// The `k`-byte little-endian encoding of `n` (mod `pow256(k)`).
pub open spec fn le_bytes(n: nat, k: nat) -> Seq<u8>
    decreases k,
{
    if k == 0 {
        Seq::empty()
    } else {
        seq![(n % 256) as u8] + le_bytes(n / 256, (k - 1) as nat)
    }
}

/// The number a little-endian byte sequence stands for.
pub open spec fn le_val(s: Seq<u8>) -> nat
    decreases s.len(),
{
    if s.len() == 0 {
        0
    } else {
        s[0] as nat + 256 * le_val(s.skip(1))
    }
}

/// Whether the lengths in `c` fit their 8-byte fields.  True of the view of
/// every executable [`Command`], whose parts are vectors.
pub open spec fn cmd_fits(c: CommandV) -> bool {
    match c {
        CommandV::Put { key, value } => key.len() < pow256(8) && value.len() < pow256(8),
        CommandV::Remove { key } => key.len() < pow256(8),
    }
}

/// The encoding of one command as a record.
pub open spec fn enc(c: CommandV) -> Seq<u8> {
    match c {
        CommandV::Put { key, value } => seq![TAG_PUT] + le_bytes(key.len(), 8) + key + le_bytes(
            value.len(),
            8,
        ) + value,
        CommandV::Remove { key } => seq![TAG_REMOVE] + le_bytes(key.len(), 8) + key,
    }
}

/// Parses one record from the front of `s`: the command and the number of
/// bytes it occupies, or `None` when `s` opens with no well-formed record.
pub open spec fn parse_rec(s: Seq<u8>) -> Option<(CommandV, int)> {
    if s.len() < 9 {
        None
    } else {
        let klen = le_val(s.subrange(1, 9)) as int;
        if s[0] == TAG_PUT {
            if s.len() < 17 + klen {
                None
            } else {
                let vlen = le_val(s.subrange(9 + klen, 17 + klen)) as int;
                if s.len() < 17 + klen + vlen {
                    None
                } else {
                    Some(
                        (
                            CommandV::Put {
                                key: s.subrange(9, 9 + klen),
                                value: s.subrange(17 + klen, 17 + klen + vlen),
                            },
                            17 + klen + vlen,
                        ),
                    )
                }
            }
        } else if s[0] == TAG_REMOVE {
            if s.len() < 9 + klen {
                None
            } else {
                Some((CommandV::Remove { key: s.subrange(9, 9 + klen) }, 9 + klen))
            }
        } else {
            None
        }
    }
}

/// Parses a whole segment: the records back-to-back from offset 0 to the very
/// end, or `None` when any record is malformed or truncated.
pub open spec fn parse_log(s: Seq<u8>) -> Option<Seq<CommandV>>
    decreases s.len(),
{
    if s.len() == 0 {
        Some(Seq::empty())
    } else {
        match parse_rec(s) {
            None => None,
            Some((c, n)) => if n <= 0 || n > s.len() {
                None
            } else {
                match parse_log(s.skip(n)) {
                    None => None,
                    Some(rest) => Some(seq![c] + rest),
                }
            },
        }
    }
}

pub proof fn lemma_pow256_monotone(a: nat, b: nat)
    requires
        a <= b,
    ensures
        pow256(a) <= pow256(b),
    decreases b,
{
    if a < b {
        lemma_pow256_monotone(a, (b - 1) as nat);
    }
}

pub proof fn lemma_le_bytes_len(n: nat, k: nat)
    ensures
        le_bytes(n, k).len() == k,
    decreases k,
{
    if k > 0 {
        lemma_le_bytes_len(n / 256, (k - 1) as nat);
    }
}

/// A `k`-byte sequence stands for a number below `pow256(k)`.
pub proof fn lemma_le_val_bound(s: Seq<u8>)
    ensures
        le_val(s) < pow256(s.len()),
    decreases s.len(),
{
    if s.len() > 0 {
        lemma_le_val_bound(s.skip(1));
    }
}

/// Encoding a number below `pow256(k)` into `k` bytes and reading them back
/// yields the number again.
pub proof fn lemma_le_roundtrip(n: nat, k: nat)
    requires
        n < pow256(k),
    ensures
        le_val(le_bytes(n, k)) == n,
    decreases k,
{
    if k > 0 {
        let rest = le_bytes(n / 256, (k - 1) as nat);
        let full = seq![(n % 256) as u8] + rest;
        assert(full.skip(1) =~= rest);
        let p: int = pow256((k - 1) as nat) as int;
        assert((256 * p - 1) / 256 == p - 1) by {
            vstd::arithmetic::div_mod::lemma_fundamental_div_mod_converse(
                256 * p - 1,
                256,
                p - 1,
                255,
            );
        }
        assert(n as int / 256 <= (256 * p - 1) / 256) by {
            vstd::arithmetic::div_mod::lemma_div_is_ordered(n as int, 256 * p - 1, 256);
        }
        lemma_le_roundtrip(n / 256, (k - 1) as nat);
    }
}

/// A byte sequence is the canonical encoding of the number it stands for:
/// the length encoding is invertible in both directions.
pub proof fn lemma_le_bytes_of_val(s: Seq<u8>)
    ensures
        le_bytes(le_val(s), s.len()) == s,
    decreases s.len(),
{
    if s.len() == 0 {
        assert(le_bytes(le_val(s), 0) =~= s);
    } else {
        let v = le_val(s);
        vstd::arithmetic::div_mod::lemma_fundamental_div_mod_converse(
            v as int,
            256,
            le_val(s.skip(1)) as int,
            s[0] as int,
        );
        lemma_le_bytes_of_val(s.skip(1));
        assert(le_bytes(v, s.len()) =~= s);
    }
}

/// A record followed by anything parses back to exactly that record, and the
/// parser consumes exactly the record's bytes.
pub proof fn lemma_parse_enc(c: CommandV, t: Seq<u8>)
    requires
        cmd_fits(c),
    ensures
        9 <= enc(c).len(),
        parse_rec(enc(c) + t) == Some((c, enc(c).len() as int)),
{
    match c {
        CommandV::Put { key, value } => {
            let kl = key.len() as int;
            let vl = value.len() as int;
            let lk = le_bytes(key.len(), 8);
            let lv = le_bytes(value.len(), 8);
            lemma_le_bytes_len(key.len(), 8);
            lemma_le_bytes_len(value.len(), 8);
            let s = enc(c) + t;
            assert(s.len() == 17 + kl + vl + t.len());
            assert(s[0] == TAG_PUT);
            assert(s.subrange(1, 9) =~= lk);
            lemma_le_roundtrip(key.len(), 8);
            assert(s.subrange(9, 9 + kl) =~= key);
            assert(s.subrange(9 + kl, 17 + kl) =~= lv);
            lemma_le_roundtrip(value.len(), 8);
            assert(s.subrange(17 + kl, 17 + kl + vl) =~= value);
        },
        CommandV::Remove { key } => {
            let kl = key.len() as int;
            let lk = le_bytes(key.len(), 8);
            lemma_le_bytes_len(key.len(), 8);
            let s = enc(c) + t;
            assert(s.len() == 9 + kl + t.len());
            assert(s[0] == TAG_REMOVE);
            assert(s.subrange(1, 9) =~= lk);
            lemma_le_roundtrip(key.len(), 8);
            assert(s.subrange(9, 9 + kl) =~= key);
        },
    }
}

/// What the parser accepts is the canonical encoding of what it returns: the
/// consumed bytes are exactly `enc` of the parsed command.
pub proof fn lemma_parse_exact(s: Seq<u8>)
    requires
        parse_rec(s) is Some,
    ensures
        ({
            let (c, n) = parse_rec(s)->Some_0;
            &&& 9 <= n <= s.len()
            &&& cmd_fits(c)
            &&& s.subrange(0, n) == enc(c)
        }),
{
    let (c, n) = parse_rec(s)->Some_0;
    let klen = le_val(s.subrange(1, 9)) as int;
    lemma_le_val_bound(s.subrange(1, 9));
    lemma_le_bytes_of_val(s.subrange(1, 9));
    if s[0] == TAG_PUT {
        let vlen = le_val(s.subrange(9 + klen, 17 + klen)) as int;
        lemma_le_val_bound(s.subrange(9 + klen, 17 + klen));
        lemma_le_bytes_of_val(s.subrange(9 + klen, 17 + klen));
        let key = s.subrange(9, 9 + klen);
        let value = s.subrange(17 + klen, 17 + klen + vlen);
        assert(le_bytes(key.len(), 8) == s.subrange(1, 9));
        assert(le_bytes(value.len(), 8) == s.subrange(9 + klen, 17 + klen));
        assert(s.subrange(0, n) =~= enc(c));
    } else {
        let key = s.subrange(9, 9 + klen);
        assert(le_bytes(key.len(), 8) == s.subrange(1, 9));
        assert(s.subrange(0, n) =~= enc(c));
    }
}

/// Appending one well-formed record to a segment that parses extends its
/// parse by exactly that record.
pub proof fn lemma_parse_log_snoc(s: Seq<u8>, c: CommandV)
    requires
        parse_log(s) is Some,
        cmd_fits(c),
    ensures
        parse_log(s + enc(c)) == Some(parse_log(s)->Some_0.push(c)),
    decreases s.len(),
{
    lemma_parse_enc(c, Seq::empty());
    if s.len() == 0 {
        assert(s + enc(c) =~= enc(c) + Seq::<u8>::empty());
        let l = enc(c).len() as int;
        assert(parse_rec(s + enc(c)) == Some((c, l)));
        assert((s + enc(c)).len() == l);
        assert((s + enc(c)).skip(l) =~= Seq::<u8>::empty());
        assert(parse_log((s + enc(c)).skip(l)) == Some(Seq::<CommandV>::empty()));
        assert(parse_log(s + enc(c)) == Some(seq![c] + Seq::<CommandV>::empty()));
        assert(parse_log(s)->Some_0 =~= Seq::<CommandV>::empty());
        assert(seq![c] + Seq::<CommandV>::empty() =~= parse_log(s)->Some_0.push(c));
    } else {
        let (c0, n) = parse_rec(s)->Some_0;
        lemma_parse_exact(s);
        assert(s + enc(c) =~= enc(c0) + (s.skip(n) + enc(c))) by {
            assert(s.subrange(0, n) == enc(c0));
        }
        lemma_parse_enc(c0, s.skip(n) + enc(c));
        assert(parse_rec(s + enc(c)) == Some((c0, n)));
        assert((s + enc(c)).skip(n) =~= s.skip(n) + enc(c));
        lemma_parse_log_snoc(s.skip(n), c);
        let inner = parse_log(s.skip(n))->Some_0;
        assert(parse_log(s)->Some_0 == seq![c0] + inner);
        assert(parse_log(s + enc(c)) == Some(seq![c0] + inner.push(c)));
        assert(seq![c0] + inner.push(c) =~= (seq![c0] + inner).push(c));
    }
}

/// Appends a copy of `bytes` to `out`.
pub(crate) fn push_bytes(out: &mut Vec<u8>, bytes: &Vec<u8>)
    ensures
        final(out)@ == old(out)@ + bytes@,
{
    let mut i: usize = 0;
    while i < bytes.len()
        invariant
            i <= bytes.len(),
            out@ == old(out)@ + bytes@.take(i as int),
        decreases bytes.len() - i,
    {
        out.push(bytes[i]);
        proof {
            assert(old(out)@ + bytes@.take(i as int + 1) =~= (old(out)@ + bytes@.take(
                i as int,
            )).push(bytes@[i as int]));
        }
        i = i + 1;
    }
    proof {
        assert(bytes@.take(bytes@.len() as int) =~= bytes@);
    }
}

/// Appends the 8-byte little-endian encoding of `n` to `out`.
fn push_le8(out: &mut Vec<u8>, n: u64)
    ensures
        final(out)@ == old(out)@ + le_bytes(n as nat, 8),
{
    let mut m: u64 = n;
    let mut k: usize = 0;
    while k < 8
        invariant
            k <= 8,
            out@ + le_bytes(m as nat, (8 - k) as nat) == old(out)@ + le_bytes(n as nat, 8),
        decreases 8 - k,
    {
        out.push((m % 256) as u8);
        proof {
            assert(out@.drop_last() + (seq![(m as nat % 256) as u8] + le_bytes(
                m as nat / 256,
                (8 - (k + 1)) as nat,
            )) =~= out@ + le_bytes(m as nat / 256, (8 - (k + 1)) as nat));
        }
        m = m / 256;
        k = k + 1;
    }
    proof {
        assert(out@ + le_bytes(m as nat, 0) =~= out@);
    }
}

/// Appends the encoding of `Put(key, value)` to `out`.
pub fn encode_put(key: &Vec<u8>, value: &Vec<u8>, out: &mut Vec<u8>)
    ensures
        final(out)@ == old(out)@ + enc((CommandV::Put { key: key@, value: value@ })),
{
    out.push(TAG_PUT);
    push_le8(out, key.len() as u64);
    push_bytes(out, key);
    push_le8(out, value.len() as u64);
    push_bytes(out, value);
    proof {
        assert(out@ =~= old(out)@ + enc((CommandV::Put { key: key@, value: value@ })));
    }
}

/// Appends the encoding of `Remove(key)` to `out`.
pub fn encode_remove(key: &Vec<u8>, out: &mut Vec<u8>)
    ensures
        final(out)@ == old(out)@ + enc((CommandV::Remove { key: key@ })),
{
    out.push(TAG_REMOVE);
    push_le8(out, key.len() as u64);
    push_bytes(out, key);
    proof {
        assert(out@ =~= old(out)@ + enc((CommandV::Remove { key: key@ })));
    }
}

/// Appends the encoding of one command to `out`.
pub fn encode_cmd(c: &Command, out: &mut Vec<u8>)
    ensures
        final(out)@ == old(out)@ + enc(c@),
{
    match c {
        Command::Put(key, value) => encode_put(key, value, out),
        Command::Remove(key) => encode_remove(key, out),
    }
}

/// Reads the 8-byte little-endian number at `pos`.
fn read_le8(s: &Vec<u8>, pos: usize) -> (r: u64)
    requires
        pos + 8 <= s@.len(),
    ensures
        r as nat == le_val(s@.subrange(pos as int, pos as int + 8)),
{
    let total: usize = s.len();
    let mut r: u64 = 0;
    let mut k: usize = 0;
    while k < 8
        invariant
            k <= 8,
            pos + 8 <= total,
            total == s@.len(),
            r as nat == le_val(s@.subrange(pos as int + 8 - k, pos as int + 8)),
            (r as nat) < pow256(k as nat),
        decreases 8 - k,
    {
        let b: u8 = s[pos + 7 - k];
        proof {
            lemma_pow256_monotone(k as nat, 7);
            assert(pow256(7) == 0x100000000000000) by {
                reveal_with_fuel(pow256, 8);
            }
            let t = s@.subrange(pos as int + 8 - (k + 1), pos as int + 8);
            assert(t.skip(1) =~= s@.subrange(pos as int + 8 - k, pos as int + 8));
            assert(t[0] == s@[pos as int + 8 - k - 1]);
        }
        r = r * 256 + (b as u64);
        k = k + 1;
    }
    r
}

/// Copies the byte range `[a, b)` of `s` into a fresh vector.
pub fn copy_range(s: &Vec<u8>, a: usize, b: usize) -> (r: Vec<u8>)
    requires
        a <= b <= s@.len(),
    ensures
        r@ == s@.subrange(a as int, b as int),
{
    let mut r: Vec<u8> = Vec::new();
    let mut i: usize = a;
    while i < b
        invariant
            a <= i <= b <= s@.len(),
            r@ == s@.subrange(a as int, i as int),
        decreases b - i,
    {
        r.push(s[i]);
        proof {
            assert(s@.subrange(a as int, i as int + 1) =~= s@.subrange(a as int, i as int).push(
                s@[i as int],
            ));
        }
        i = i + 1;
    }
    r
}

/// Decodes the one record that begins at `pos`, returning it together with
/// the offset one past its end; `Corrupt` when no well-formed record begins
/// there.
pub fn decode_cmd(s: &Vec<u8>, pos: usize) -> (r: Result<(Command, usize), KvsError>)
    requires
        pos <= s@.len(),
    ensures
        match r {
            Ok(p) => {
                &&& pos < p.1 <= s@.len()
                &&& cmd_fits(p.0@)
                &&& parse_rec(s@.skip(pos as int)) == Some((p.0@, p.1 as int - pos as int))
            },
            Err(e) => {
                &&& e == KvsError::Corrupt
                &&& parse_rec(s@.skip(pos as int)) is None
            },
        },
{
    let ghost tail = s@.skip(pos as int);
    let avail: usize = s.len() - pos;
    proof {
        assert(tail.len() == avail);
    }
    if avail < 9 {
        return Err(KvsError::Corrupt);
    }
    let tag: u8 = s[pos];
    proof {
        assert(tail[0] == s@[pos as int]);
        assert(s@.subrange(pos as int + 1, pos as int + 9) =~= tail.subrange(1, 9));
        assert(pow256(8) == 0x10000000000000000) by {
            reveal_with_fuel(pow256, 9);
        }
    }
    let klen64: u64 = read_le8(s, pos + 1);
    let ghost klen_spec = le_val(tail.subrange(1, 9)) as int;
    proof {
        lemma_le_val_bound(tail.subrange(1, 9));
    }
    if tag == TAG_PUT {
        if ((avail - 9) as u64) < klen64 {
            return Err(KvsError::Corrupt);
        }
        let klen: usize = klen64 as usize;
        let rem: usize = avail - 9 - klen;
        if rem < 8 {
            return Err(KvsError::Corrupt);
        }
        proof {
            assert(s@.subrange(pos as int + 9 + klen_spec, pos as int + 17 + klen_spec)
                =~= tail.subrange(9 + klen_spec, 17 + klen_spec));
        }
        let vlen64: u64 = read_le8(s, pos + 9 + klen);
        let ghost vlen_spec = le_val(tail.subrange(9 + klen_spec, 17 + klen_spec)) as int;
        proof {
            lemma_le_val_bound(tail.subrange(9 + klen_spec, 17 + klen_spec));
        }
        if ((rem - 8) as u64) < vlen64 {
            return Err(KvsError::Corrupt);
        }
        let vlen: usize = vlen64 as usize;
        let key = copy_range(s, pos + 9, pos + 9 + klen);
        let value = copy_range(s, pos + 17 + klen, pos + 17 + klen + vlen);
        let end: usize = pos + 17 + klen + vlen;
        proof {
            assert(key@ =~= tail.subrange(9, 9 + klen_spec));
            assert(value@ =~= tail.subrange(17 + klen_spec, 17 + klen_spec + vlen_spec));
        }
        Ok((Command::Put(key, value), end))
    } else if tag == TAG_REMOVE {
        if ((avail - 9) as u64) < klen64 {
            return Err(KvsError::Corrupt);
        }
        let klen: usize = klen64 as usize;
        let key = copy_range(s, pos + 9, pos + 9 + klen);
        let end: usize = pos + 9 + klen;
        proof {
            assert(key@ =~= tail.subrange(9, 9 + klen_spec));
        }
        Ok((Command::Remove(key), end))
    } else {
        Err(KvsError::Corrupt)
    }
}

} // verus!
