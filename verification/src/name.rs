//! The domain-name codec: length-prefixed labels with backward-pointer
//! compression on decode, plain labels (never compressed) on encode.
//!
//! A decoded name is a sequence of bytes: the labels, ASCII lower-cased,
//! joined by `.` with no leading or trailing dot. The wire form of a name
//! is one length byte per label, the label bytes, and a terminating zero
//! length; a length byte whose top two bits are set is instead a
//! compression pointer, a 14-bit absolute offset to continue reading from.

use vstd::prelude::*;
use crate::errors::DnsError;
use crate::buffer::{BytePacketBuffer, PACKET_SIZE};

verus! {

/// Most compression pointers one name may chain through. A chain longer
/// than this is treated as malformed, so a pointer cycle cannot hang the
/// decoder.
pub const MAX_JUMPS: usize = 64;

/// Longest label the protocol allows, in bytes.
pub const MAX_LABEL_LEN: usize = 63;

/// ASCII lower-casing of one byte.
pub open spec fn lower_byte(b: u8) -> u8 {
    if 0x41 <= b && b <= 0x5a {
        (b + 0x20) as u8
    } else {
        b
    }
}

/// Dot-join two name fragments; an empty fragment contributes no dot.
pub open spec fn join_labels(a: Seq<u8>, b: Seq<u8>) -> Seq<u8> {
    if a.len() == 0 {
        b
    } else if b.len() == 0 {
        a
    } else {
        a + seq![0x2eu8] + b
    }
}

/// Joining onto a non-empty middle fragment is associative.
pub proof fn lemma_join_assoc(a: Seq<u8>, l: Seq<u8>, r: Seq<u8>)
    requires l.len() > 0,
    ensures join_labels(join_labels(a, l), r) == join_labels(a, join_labels(l, r)),
{
    if a.len() > 0 && r.len() > 0 {
        assert(join_labels(join_labels(a, l), r) =~= join_labels(a, join_labels(l, r)));
    }
}

/// The name decoded from `buf` starting at `pos`, together with the
/// position just past the name's own bytes: one past the terminating zero
/// when no pointer occurs, or two past the first pointer otherwise.
/// `budget` bounds how many further pointers may be followed.
pub open spec fn spec_read_name(buf: Seq<u8>, pos: nat, budget: nat)
    -> Result<(Seq<u8>, nat), DnsError>
    decreases budget, (if pos < buf.len() { buf.len() - pos } else { 0 }),
{
    if pos >= buf.len() {
        Err(DnsError::BufferExhausted)
    } else {
        let len = buf[pos as int];
        if len & 0xc0 == 0xc0 {
            if pos + 1 >= buf.len() {
                Err(DnsError::BufferExhausted)
            } else if budget == 0 {
                Err(DnsError::TooManyJumps)
            } else {
                let target = ((((len as u16) ^ 0xc0) << 8) | (buf[pos as int + 1] as u16)) as nat;
                match spec_read_name(buf, target, (budget - 1) as nat) {
                    Ok(pr) => Ok((pr.0, (pos + 2) as nat)),
                    Err(e) => Err(e),
                }
            }
        } else if len == 0 {
            Ok((Seq::empty(), (pos + 1) as nat))
        } else if pos + 1 + len > buf.len() {
            Err(DnsError::BufferExhausted)
        } else {
            let label = buf.subrange(pos as int + 1, pos as int + 1 + len).map_values(|b: u8| lower_byte(b));
            match spec_read_name(buf, (pos + 1 + len) as nat, budget) {
                Ok(pr) => Ok((join_labels(label, pr.0), pr.1)),
                Err(e) => Err(e),
            }
        }
    }
}

/// Index of the first `.` in `name`, or -1 when there is none.
pub open spec fn first_dot(name: Seq<u8>) -> int
    decreases name.len(),
{
    if name.len() == 0 {
        -1
    } else if name[0] == 0x2e {
        0
    } else {
        let r = first_dot(name.drop_first());
        if r < 0 {
            -1
        } else {
            r + 1
        }
    }
}

/// `first_dot` is either -1 or the position of the first dot.
pub proof fn lemma_first_dot_range(name: Seq<u8>)
    ensures
        -1 <= first_dot(name) < name.len(),
        first_dot(name) >= 0 ==> name[first_dot(name)] == 0x2e,
        forall|i: int| 0 <= i < first_dot(name) ==> name[i] != 0x2e,
        first_dot(name) == -1 ==> forall|i: int| 0 <= i < name.len() ==> name[i] != 0x2e,
    decreases name.len(),
{
    if name.len() == 0 {
    } else if name[0] == 0x2e {
    } else {
        lemma_first_dot_range(name.drop_first());
        assert forall|i: int| 0 <= i < first_dot(name) implies name[i] != 0x2e by {
            if i > 0 {
                assert(name.drop_first()[i - 1] == name[i]);
            }
        }
        if first_dot(name) == -1 {
            assert forall|i: int| 0 <= i < name.len() implies name[i] != 0x2e by {
                if i > 0 {
                    assert(name.drop_first()[i - 1] == name[i]);
                }
            }
        }
    }
}

/// A scan that found no dot before `m`, and a dot (or the end) at `m`,
/// has found the first dot.
pub proof fn lemma_first_dot_at(name: Seq<u8>, m: int)
    requires
        0 <= m <= name.len(),
        forall|i: int| 0 <= i < m ==> name[i] != 0x2e,
        m < name.len() ==> name[m] == 0x2e,
    ensures
        first_dot(name) == if m == name.len() { -1 } else { m },
    decreases m,
{
    if m == 0 {
        if name.len() > 0 && name[0] != 0x2e {
            lemma_first_dot_range(name.drop_first());
            assert(forall|i: int| 0 <= i < name.drop_first().len()
                ==> name.drop_first()[i] == name[i + 1]);
        }
    } else {
        lemma_first_dot_at(name.drop_first(), m - 1);
        assert(forall|i: int| 0 <= i < name.drop_first().len()
            ==> name.drop_first()[i] == name[i + 1]);
    }
}

/// Every label of `name` fits the protocol's length limit, so the name
/// can be put on the wire.
pub open spec fn labels_ok(name: Seq<u8>) -> bool
    decreases name.len() via labels_ok_decreases
{
    let d = first_dot(name);
    if d < 0 {
        name.len() <= MAX_LABEL_LEN
    } else {
        d <= MAX_LABEL_LEN && labels_ok(name.subrange(d + 1, name.len() as int))
    }
}

#[via_fn]
proof fn labels_ok_decreases(name: Seq<u8>) {
    lemma_first_dot_range(name);
}

/// The uncompressed wire form of a name: a length byte per label, the
/// label bytes, and a terminating zero.
pub open spec fn name_wire(name: Seq<u8>) -> Seq<u8>
    decreases name.len() via name_wire_decreases
{
    let d = first_dot(name);
    if d < 0 {
        seq![name.len() as u8] + name + seq![0u8]
    } else {
        seq![d as u8] + name.subrange(0, d) + name_wire(name.subrange(d + 1, name.len() as int))
    }
}

#[via_fn]
proof fn name_wire_decreases(name: Seq<u8>) {
    lemma_first_dot_range(name);
}

/// The wire form of a name is always exactly two bytes longer than the
/// name itself: the dots become length bytes, plus one leading length
/// byte and the terminator.
pub proof fn lemma_name_wire_len(name: Seq<u8>)
    ensures name_wire(name).len() == name.len() + 2,
    decreases name.len(),
{
    lemma_first_dot_range(name);
    let d = first_dot(name);
    if d >= 0 {
        lemma_name_wire_len(name.subrange(d + 1, name.len() as int));
    }
}

/// A name whose wire form decodes back to itself: labels are non-empty,
/// within the length limit, and already lower-case.
pub open spec fn valid_dns_name(name: Seq<u8>) -> bool
    decreases name.len() via valid_dns_name_decreases
{
    let d = first_dot(name);
    if d < 0 {
        1 <= name.len() <= MAX_LABEL_LEN && lower_stable(name)
    } else {
        1 <= d <= MAX_LABEL_LEN && lower_stable(name.subrange(0, d))
            && valid_dns_name(name.subrange(d + 1, name.len() as int))
    }
}

#[via_fn]
proof fn valid_dns_name_decreases(name: Seq<u8>) {
    lemma_first_dot_range(name);
}

/// Lower-casing leaves every byte of `s` unchanged.
pub open spec fn lower_stable(s: Seq<u8>) -> bool {
    forall|i: int| 0 <= i < s.len() ==> lower_byte(s[i]) == s[i]
}

/// A valid name round-trips: wherever its wire form sits in a buffer,
/// decoding at that spot yields the name itself, with the cursor landing
/// just past the wire form, whatever the pointer budget.
pub proof fn lemma_name_roundtrip(buf: Seq<u8>, pos: nat, name: Seq<u8>, budget: nat)
    requires
        valid_dns_name(name),
        pos + name.len() + 2 <= buf.len(),
        buf.subrange(pos as int, pos as int + name.len() + 2) == name_wire(name),
    ensures
        spec_read_name(buf, pos, budget)
            == Ok::<(Seq<u8>, nat), DnsError>((name, (pos + name.len() + 2) as nat)),
    decreases name.len(),
{
    lemma_first_dot_range(name);
    lemma_name_wire_len(name);
    let d = first_dot(name);
    let w = name_wire(name);
    assert(buf[pos as int] == w[0]);
    if d < 0 {
        let len = name.len();
        assert(buf[pos as int] == len as u8);
        assert(1 <= len <= 63);
        let lb: u8 = len as u8;
        assert(lb & 0xc0 != 0xc0 && lb != 0) by (bit_vector)
            requires 1 <= lb <= 63,
        ;
        assert(buf[pos as int] & 0xc0 != 0xc0 && buf[pos as int] != 0);
        assert(buf.subrange(pos as int + 1, pos as int + 1 + len) =~= name) by {
            assert(forall|i: int| 0 <= i < len ==> buf[pos + 1 + i] == w[1 + i] && w[1 + i] == name[i]);
        }
        let label = buf.subrange(pos as int + 1, pos as int + 1 + len).map_values(|b: u8| lower_byte(b));
        assert(label =~= name);
        assert(buf[pos as int + 1 + len] == w[1 + len as int] && w[1 + len as int] == 0u8);
        assert(0u8 & 0xc0 != 0xc0) by (bit_vector);
        assert(spec_read_name(buf, (pos + 1 + len) as nat, budget)
            == Ok::<(Seq<u8>, nat), DnsError>((Seq::empty(), (pos + len + 2) as nat))) by {
            reveal_with_fuel(spec_read_name, 2);
        }
        assert(join_labels(label, Seq::empty()) == name);
    } else {
        let lab = name.subrange(0, d);
        let rest = name.subrange(d + 1, name.len() as int);
        assert(buf[pos as int] == d as u8);
        assert(1 <= d <= 63);
        let db: u8 = d as u8;
        assert(db & 0xc0 != 0xc0 && db != 0) by (bit_vector)
            requires 1 <= db <= 63,
        ;
        assert(buf[pos as int] & 0xc0 != 0xc0 && buf[pos as int] != 0);
        lemma_name_wire_len(rest);
        assert(buf.subrange(pos as int + 1, pos as int + 1 + d) =~= lab) by {
            assert(forall|i: int| 0 <= i < d ==> buf[pos + 1 + i] == w[1 + i] && w[1 + i] == lab[i]);
        }
        let label = buf.subrange(pos as int + 1, pos as int + 1 + d).map_values(|b: u8| lower_byte(b));
        assert(label =~= lab);
        assert(buf.subrange(pos as int + 1 + d, pos as int + 1 + d + rest.len() + 2) =~= name_wire(rest)) by {
            assert(forall|i: int| 0 <= i < rest.len() + 2
                ==> buf[pos + 1 + d + i] == w[1 + d + i]
                    && w[1 + d + i] == name_wire(rest)[i]);
        }
        lemma_name_roundtrip(buf, (pos + 1 + d) as nat, rest, budget);
        assert(rest.len() > 0) by {
            reveal_with_fuel(valid_dns_name, 2);
            lemma_first_dot_range(rest);
        }
        assert(join_labels(label, rest) =~= name);
        assert(pos + 1 + d + rest.len() + 2 == pos + name.len() + 2);
    }
}

/// A larger pointer budget never changes a successful decode: it can only
/// turn a too-many-jumps failure into a success.
pub proof fn lemma_read_name_budget(buf: Seq<u8>, pos: nat, budget: nat, larger: nat)
    requires
        budget <= larger,
        spec_read_name(buf, pos, budget) is Ok,
    ensures
        spec_read_name(buf, pos, larger) == spec_read_name(buf, pos, budget),
    decreases budget, (if pos < buf.len() { buf.len() - pos } else { 0 }),
{
    if pos >= buf.len() {
    } else {
        let len = buf[pos as int];
        if len & 0xc0 == 0xc0 {
            if pos + 1 < buf.len() && budget > 0 {
                let target = ((((len as u16) ^ 0xc0) << 8) | (buf[pos as int + 1] as u16)) as nat;
                lemma_read_name_budget(buf, target, (budget - 1) as nat, (larger - 1) as nat);
            }
        } else if len == 0 {
        } else if pos + 1 + len <= buf.len() {
            lemma_read_name_budget(buf, (pos + 1 + len) as nat, budget, larger);
        }
    }
}

/// Name compression is transparent: a name that starts with a compression
/// pointer decodes to exactly the name found by decoding the pointed-to
/// offset directly. Only the cursor differs: it lands two bytes past the
/// pointer, not past the pointed-to name.
pub proof fn lemma_pointer_transparent(buf: Seq<u8>, pos: nat, budget: nat)
    requires
        pos + 1 < buf.len(),
        buf[pos as int] & 0xc0 == 0xc0,
        budget > 0,
        spec_read_name(buf,
            ((((buf[pos as int] as u16) ^ 0xc0) << 8) | (buf[pos as int + 1] as u16)) as nat,
            (budget - 1) as nat) is Ok,
    ensures
        spec_read_name(buf, pos, budget) is Ok,
        spec_read_name(buf, pos, budget)->Ok_0.0
            == spec_read_name(buf,
                ((((buf[pos as int] as u16) ^ 0xc0) << 8) | (buf[pos as int + 1] as u16)) as nat,
                budget)->Ok_0.0,
        spec_read_name(buf, pos, budget)->Ok_0.1 == pos + 2,
{
    let target = ((((buf[pos as int] as u16) ^ 0xc0) << 8) | (buf[pos as int + 1] as u16)) as nat;
    lemma_read_name_budget(buf, target, (budget - 1) as nat, budget);
}

impl BytePacketBuffer {
    /// Decode the domain name at the cursor, following compression
    /// pointers, and leave the cursor just past the name's own bytes:
    /// after the terminating zero, or two bytes past the first pointer.
    /// The result is the lower-cased, dot-joined name.
    #[verifier::loop_isolation(false)]
    pub fn read_qname(&mut self) -> (r: Result<Vec<u8>, DnsError>)
        requires old(self).wf(),
        ensures
            final(self).wf(),
            final(self).buf@ == old(self).buf@,
            (match r {
                Ok(name) => spec_read_name(old(self).buf@, old(self).pos as nat, MAX_JUMPS as nat)
                    == Ok::<(Seq<u8>, nat), DnsError>((name@, final(self).pos as nat)),
                Err(e) => spec_read_name(old(self).buf@, old(self).pos as nat, MAX_JUMPS as nat)
                    == Err::<(Seq<u8>, nat), DnsError>(e),
            }),
    {
        let ghost buf0 = self.buf@;
        let ghost pos0 = self.pos as nat;
        let ghost target = spec_read_name(buf0, pos0, MAX_JUMPS as nat);
        let mut name: Vec<u8> = Vec::new();
        let mut p: usize = self.pos;
        let mut jumped = false;
        let mut jumps: usize = 0;
        loop
            invariant
                self.wf(),
                self.buf@ == buf0,
                jumps <= MAX_JUMPS,
                p <= 0xffff,
                (match spec_read_name(buf0, p as nat, (MAX_JUMPS - jumps) as nat) {
                    Ok(pr) => target == Ok::<(Seq<u8>, nat), DnsError>((
                        join_labels(name@, pr.0),
                        if jumped { self.pos as nat } else { pr.1 },
                    )),
                    Err(e) => target == Err::<(Seq<u8>, nat), DnsError>(e),
                }),
            decreases MAX_JUMPS - jumps, (if p < PACKET_SIZE { PACKET_SIZE - p } else { 0 }),
        {
            let ghost budget = (MAX_JUMPS - jumps) as nat;
            let len = match self.get(p) {
                Ok(l) => l,
                Err(e) => {
                    return Err(e);
                },
            };
            if len & 0xc0 == 0xc0 {
                let b2 = match self.get(p + 1) {
                    Ok(b) => b,
                    Err(e) => {
                        return Err(e);
                    },
                };
                if jumps >= MAX_JUMPS {
                    return Err(DnsError::TooManyJumps);
                }
                if !jumped {
                    self.pos = p + 2;
                    jumped = true;
                }
                jumps = jumps + 1;
                let offset = (((len as u16) ^ 0xc0) << 8) | (b2 as u16);
                p = offset as usize;
            } else if len == 0 {
                proof {
                    assert(0u8 & 0xc0 != 0xc0) by (bit_vector);
                    assert(spec_read_name(buf0, p as nat, budget)
                        == Ok::<(Seq<u8>, nat), DnsError>((Seq::empty(), (p + 1) as nat)));
                    assert(join_labels(name@, Seq::empty()) =~= name@);
                }
                if !jumped {
                    self.pos = p + 1;
                }
                return Ok(name);
            } else {
                let len_us = len as usize;
                let raw = match self.get_range(p + 1, len_us) {
                    Ok(v) => v,
                    Err(e) => {
                        return Err(e);
                    },
                };
                let ghost acc0 = name@;
                let ghost ls = buf0.subrange(p as int + 1, p as int + 1 + len as int)
                    .map_values(|b: u8| lower_byte(b));
                if name.len() > 0 {
                    name.push(0x2e);
                }
                let mut k: usize = 0;
                while k < len_us
                    invariant
                        k <= len_us,
                        raw@ == buf0.subrange(p as int + 1, p as int + 1 + len as int),
                        name@ == (if acc0.len() == 0 {
                            ls.subrange(0, k as int)
                        } else {
                            acc0 + seq![0x2eu8] + ls.subrange(0, k as int)
                        }),
                    decreases len_us - k,
                {
                    let b = raw[k];
                    let lb = if 0x41 <= b && b <= 0x5a {
                        b + 0x20
                    } else {
                        b
                    };
                    name.push(lb);
                    k = k + 1;
                    proof {
                        assert(ls.subrange(0, k as int)
                            =~= ls.subrange(0, k - 1).push(lower_byte(raw@[k - 1])));
                    }
                }
                proof {
                    assert(ls.subrange(0, len as int) =~= ls);
                    assert(name@ == join_labels(acc0, ls));
                    let sp = spec_read_name(buf0, (p + 1 + len) as nat, budget);
                    if sp is Ok {
                        lemma_join_assoc(acc0, ls, sp->Ok_0.0);
                    }
                }
                p = p + 1 + len_us;
            }
        }
    }

    /// Encode a domain name at the cursor: each label as a length byte
    /// followed by its bytes, then a terminating zero. No compression is
    /// ever emitted. Fails with `LabelTooLong` when a label exceeds 63
    /// bytes, and with `BufferExhausted` when the name does not fit; in
    /// either case the buffer is left untouched.
    #[verifier::loop_isolation(false)]
    #[verifier::rlimit(50)]
    pub fn write_qname(&mut self, qname: &Vec<u8>) -> (r: Result<(), DnsError>)
        requires old(self).wf(),
        ensures
            final(self).wf(),
            r is Ok <==> labels_ok(qname@) && old(self).pos + qname@.len() + 2 <= PACKET_SIZE,
            r is Ok ==> final(self).pos == old(self).pos + qname@.len() + 2
                && final(self).buf@ == old(self).buf@.subrange(0, old(self).pos as int)
                    + name_wire(qname@)
                    + old(self).buf@.subrange(
                        old(self).pos + qname@.len() + 2, PACKET_SIZE as int),
            r is Err ==> *final(self) == *old(self)
                && r == Err::<(), DnsError>(if labels_ok(qname@) {
                    DnsError::BufferExhausted
                } else {
                    DnsError::LabelTooLong
                }),
    {
        let n = qname.len();
        let mut wire: Vec<u8> = Vec::new();
        let mut i: usize = 0;
        proof {
            assert(qname@.subrange(0, n as int) =~= qname@);
        }
        loop
            invariant
                i <= n,
                labels_ok(qname@) <==> labels_ok(qname@.subrange(i as int, n as int)),
                name_wire(qname@) == wire@ + name_wire(qname@.subrange(i as int, n as int)),
                *self == *old(self),
            decreases n - i,
        {
            let ghost suffix = qname@.subrange(i as int, n as int);
            let mut j: usize = i;
            while j < n && qname[j] != 0x2e
                invariant
                    i <= j <= n,
                    forall|t: int| i <= t < j ==> qname@[t] != 0x2e,
                decreases n - j,
            {
                j = j + 1;
            }
            proof {
                assert(forall|t: int| 0 <= t < j - i ==> suffix[t] != 0x2e);
                lemma_first_dot_at(suffix, j - i);
            }
            if j - i > MAX_LABEL_LEN {
                return Err(DnsError::LabelTooLong);
            }
            let ghost wire0 = wire@;
            wire.push((j - i) as u8);
            let mut k: usize = i;
            while k < j
                invariant
                    i <= k <= j <= n,
                    wire@ == wire0.push((j - i) as u8) + qname@.subrange(i as int, k as int),
                decreases j - k,
            {
                wire.push(qname[k]);
                k = k + 1;
                proof {
                    assert(wire@ =~= wire0.push((j - i) as u8)
                        + qname@.subrange(i as int, k as int));
                }
            }
            if j < n {
                proof {
                    let rest = qname@.subrange(j as int + 1, n as int);
                    assert(suffix.subrange(0, j - i) =~= qname@.subrange(i as int, j as int));
                    assert(suffix.subrange(j - i + 1, suffix.len() as int) =~= rest);
                    assert(name_wire(suffix) == seq![(j - i) as u8]
                        + qname@.subrange(i as int, j as int) + name_wire(rest));
                    assert(wire@ + name_wire(rest) =~= wire0 + name_wire(suffix));
                }
                i = j + 1;
            } else {
                wire.push(0u8);
                proof {
                    assert(suffix =~= qname@.subrange(i as int, j as int));
                    assert(name_wire(suffix) == seq![(j - i) as u8] + suffix + seq![0u8]);
                    assert(wire@ =~= wire0 + name_wire(suffix));
                    assert(wire@ =~= name_wire(qname@));
                    lemma_name_wire_len(qname@);
                }
                return match self.write_bytes(&wire) {
                    Ok(()) => Ok(()),
                    Err(_) => Err(DnsError::BufferExhausted),
                };
            }
        }
    }
}

/// True exactly when every label of `name` fits the protocol limit.
pub fn labels_check(name: &Vec<u8>) -> (r: bool)
    ensures r == labels_ok(name@),
{
    let n = name.len();
    let mut i: usize = 0;
    proof {
        assert(name@.subrange(0, n as int) =~= name@);
    }
    loop
        invariant
            i <= n,
            n == name@.len(),
            labels_ok(name@) <==> labels_ok(name@.subrange(i as int, n as int)),
        decreases n - i,
    {
        let ghost suffix = name@.subrange(i as int, n as int);
        let mut j: usize = i;
        while j < n && name[j] != 0x2e
            invariant
                i <= j <= n,
                n == name@.len(),
                forall|t: int| i <= t < j ==> name@[t] != 0x2e,
            decreases n - j,
        {
            j = j + 1;
        }
        proof {
            assert(forall|t: int| 0 <= t < j - i ==> suffix[t] != 0x2e);
            lemma_first_dot_at(suffix, j - i);
        }
        if j - i > MAX_LABEL_LEN {
            return false;
        }
        if j == n {
            return true;
        }
        proof {
            assert(name@.subrange(j as int + 1, n as int)
                =~= suffix.subrange(j - i + 1, suffix.len() as int));
        }
        i = j + 1;
    }
}

} // verus!
