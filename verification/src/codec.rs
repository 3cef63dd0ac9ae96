//! The byte-level wire format of the snapshot records.
//!
//! Every record serializes to a flat byte string: integers as 8-byte
//! little-endian fields, strings as a length field followed by their UTF-8
//! bytes, optional values behind a one-byte presence tag, and lists behind an
//! 8-byte count.  Each decoder's contract states the round-trip law: whenever
//! the input bytes start with the encoding of a record, decoding succeeds and
//! returns that record, field for field, consuming exactly its encoding.

use vstd::prelude::*;
use vstd::bytes::{
    lemma_auto_spec_u64_to_from_le_bytes, spec_u64_from_le_bytes, spec_u64_to_le_bytes,
    u64_from_le_bytes, u64_to_le_bytes,
};
use vstd::slice::{slice_subrange, slice_to_vec};
use vstd::string::StrSliceExecFns;
use vstd::utf8::{encode_utf8, encode_utf8_decode_utf8, encode_utf8_valid_utf8, valid_utf8};
use crate::records::{AdvancedSystemInfo, CpuInfo, DiskInfo, ExtendedRealtimeStats, MemoryInfo, NetworkInfo, ProcessInfo, RealtimeStats, SystemInfo, TemperatureInfo};

verus! {

/// The UTF-8 bytes of `s` are few enough for their count to be carried in
/// the 8-byte length field.  Every real string satisfies this.
pub open spec fn str_fits(s: Seq<char>) -> bool {
    encode_utf8(s).len() <= u64::MAX
}

/// Wire form of a string: 8-byte little-endian byte count, then the UTF-8
/// bytes.
pub open spec fn enc_str(s: Seq<char>) -> Seq<u8> {
    spec_u64_to_le_bytes(encode_utf8(s).len() as u64) + encode_utf8(s)
}

/// Wire form of an optional value: one presence byte, then the value when
/// present.
pub open spec fn enc_opt_u64(o: Option<u64>) -> Seq<u8> {
    match o {
        None => seq![0u8],
        Some(v) => seq![1u8] + spec_u64_to_le_bytes(v),
    }
}

/// Relies on `String::from_utf8`: it succeeds exactly on valid UTF-8 input
/// and returns the string whose UTF-8 encoding is that input.
#[verifier::external_body]
fn string_from_utf8(bytes: Vec<u8>) -> (r: Option<String>)
    ensures
        r matches Some(s) ==> encode_utf8(s@) == bytes@,
        valid_utf8(bytes@) ==> r is Some,
{
    String::from_utf8(bytes).ok()
}

/// Splitting a prefix: when `a + rest` starts the bytes at `pos`, then `a`
/// starts them at `pos` and `rest` starts them right after `a`.
proof fn lemma_unchain(b: Seq<u8>, pos: int, a: Seq<u8>, rest: Seq<u8>)
    requires
        0 <= pos <= b.len(),
        (a + rest).is_prefix_of(b.skip(pos)),
    ensures
        a.is_prefix_of(b.skip(pos)),
        pos + a.len() <= b.len(),
        rest.is_prefix_of(b.skip(pos + a.len())),
{
    assert(a =~= b.skip(pos).subrange(0, a.len() as int)) by {
        assert(forall|k: int|
            0 <= k < a.len() ==> (a + rest)[k] == a[k] && b.skip(pos).subrange(
                0,
                (a + rest).len() as int,
            )[k] == b.skip(pos)[k]);
    }
    assert(rest =~= b.skip(pos + a.len()).subrange(0, rest.len() as int)) by {
        assert(forall|k: int|
            0 <= k < rest.len() ==> (a + rest)[a.len() + k] == rest[k] && b.skip(pos)[a.len() + k]
                == b.skip(pos + a.len())[k]);
    }
}

/// Append the wire form of a `u64`.
fn put_u64(out: &mut Vec<u8>, v: u64)
    ensures
        final(out)@ == old(out)@ + spec_u64_to_le_bytes(v),
{
    let mut b = u64_to_le_bytes(v);
    out.append(&mut b);
}

/// Append the wire form of a string.
fn put_str(out: &mut Vec<u8>, s: &str)
    ensures
        final(out)@ == old(out)@ + enc_str(s@),
        str_fits(s@),
{
    let mut b = s.as_bytes_vec();
    let n: usize = b.len();
    put_u64(out, n as u64);
    out.append(&mut b);
    proof {
        assert(final(out)@ =~= old(out)@ + enc_str(s@));
    }
}

/// Append the wire form of an optional `u64`.
fn put_opt_u64(out: &mut Vec<u8>, o: Option<u64>)
    ensures
        final(out)@ == old(out)@ + enc_opt_u64(o),
{
    match o {
        None => {
            out.push(0u8);
            proof {
                assert(final(out)@ =~= old(out)@ + enc_opt_u64(o));
            }
        },
        Some(v) => {
            out.push(1u8);
            put_u64(out, v);
            proof {
                assert(final(out)@ =~= old(out)@ + enc_opt_u64(o));
            }
        },
    }
}

/// Read one `u64` field.  Succeeds exactly when 8 bytes remain; whenever the
/// bytes at `pos` start with the encoding of some value, that value is
/// returned.
fn take_u64(b: &Vec<u8>, pos: usize) -> (r: Option<(u64, usize)>)
    requires
        pos <= b@.len(),
    ensures
        r is Some <==> pos + 8 <= b@.len(),
        r matches Some((v, end)) ==> end == pos + 8 && b@.subrange(pos as int, end as int)
            == spec_u64_to_le_bytes(v),
        forall|x: u64|
            (#[trigger] spec_u64_to_le_bytes(x)).is_prefix_of(b@.skip(pos as int)) ==> (r matches
            Some((v, end)) && v == x && end == pos + 8),
{
    proof {
        lemma_auto_spec_u64_to_from_le_bytes();
    }
    if b.len() >= 8 && pos <= b.len() - 8 {
        let s = slice_subrange(b.as_slice(), pos, pos + 8);
        let v = u64_from_le_bytes(s);
        proof {
            assert forall|x: u64|
                (#[trigger] spec_u64_to_le_bytes(x)).is_prefix_of(
                    b@.skip(pos as int),
                ) implies v == x by {
                assert(spec_u64_to_le_bytes(x) =~= b@.subrange(pos as int, pos + 8));
                assert(spec_u64_from_le_bytes(spec_u64_to_le_bytes(x)) == x);
            }
        }
        Some((v, pos + 8))
    } else {
        proof {
            assert forall|x: u64|
                (#[trigger] spec_u64_to_le_bytes(x)).is_prefix_of(
                    b@.skip(pos as int),
                ) implies false by {
                assert(spec_u64_to_le_bytes(x).len() == 8);
            }
        }
        None
    }
}

/// Read one `usize` field (carried on the wire as a `u64`).
fn take_usize(b: &Vec<u8>, pos: usize) -> (r: Option<(usize, usize)>)
    requires
        pos <= b@.len(),
    ensures
        r matches Some((v, end)) ==> pos <= end <= b@.len(),
        forall|x: usize|
            (#[trigger] spec_u64_to_le_bytes(x as u64)).is_prefix_of(b@.skip(pos as int)) ==> (
            r matches Some((v, end)) && v == x && end == pos + 8),
{
    match take_u64(b, pos) {
        Some((v, end)) => {
            if v <= usize::MAX as u64 {
                Some((v as usize, end))
            } else {
                None
            }
        },
        None => None,
    }
}

/// Read one `u32` field (carried on the wire as a `u64`).
fn take_u32(b: &Vec<u8>, pos: usize) -> (r: Option<(u32, usize)>)
    requires
        pos <= b@.len(),
    ensures
        r matches Some((v, end)) ==> pos <= end <= b@.len(),
        forall|x: u32|
            (#[trigger] spec_u64_to_le_bytes(x as u64)).is_prefix_of(b@.skip(pos as int)) ==> (
            r matches Some((v, end)) && v == x && end == pos + 8),
{
    match take_u64(b, pos) {
        Some((v, end)) => {
            if v <= u32::MAX as u64 {
                Some((v as u32, end))
            } else {
                None
            }
        },
        None => None,
    }
}

/// Read one presence byte.
fn take_u8(b: &Vec<u8>, pos: usize) -> (r: Option<(u8, usize)>)
    requires
        pos <= b@.len(),
    ensures
        r is Some <==> pos + 1 <= b@.len(),
        r matches Some((v, end)) ==> end == pos + 1 && v == b@[pos as int],
{
    if pos < b.len() {
        Some((b[pos], pos + 1))
    } else {
        None
    }
}

/// Read one optional `u64` field.  Whenever the bytes at `pos` start with
/// the encoding of some optional value, that value is returned.
fn take_opt_u64(b: &Vec<u8>, pos: usize) -> (r: Option<(Option<u64>, usize)>)
    requires
        pos <= b@.len(),
    ensures
        r matches Some((q, end)) ==> pos <= end <= b@.len(),
        forall|o: Option<u64>|
            (#[trigger] enc_opt_u64(o)).is_prefix_of(b@.skip(pos as int)) ==> (r matches Some(
                (q, end),
            ) && q == o && end == pos + enc_opt_u64(o).len()),
{
    proof {
        lemma_auto_spec_u64_to_from_le_bytes();
    }
    match take_u8(b, pos) {
        None => {
            proof {
                assert forall|o: Option<u64>|
                    (#[trigger] enc_opt_u64(o)).is_prefix_of(
                        b@.skip(pos as int),
                    ) implies false by {
                    assert(enc_opt_u64(o).len() >= 1);
                }
            }
            None
        },
        Some((tag, p1)) => {
            if tag == 0 {
                proof {
                    assert forall|o: Option<u64>|
                        (#[trigger] enc_opt_u64(o)).is_prefix_of(
                            b@.skip(pos as int),
                        ) implies o is None by {
                        assert(enc_opt_u64(o)[0] == b@.skip(pos as int)[0]);
                    }
                }
                Some((None, p1))
            } else if tag == 1 {
                match take_u64(b, p1) {
                    Some((v, end)) => {
                        proof {
                            assert forall|o: Option<u64>|
                                (#[trigger] enc_opt_u64(o)).is_prefix_of(
                                    b@.skip(pos as int),
                                ) implies (o == Some(v) && end == pos + enc_opt_u64(o).len()) by {
                                assert(enc_opt_u64(o)[0] == b@.skip(pos as int)[0]);
                                let w = o->0;
                                assert(enc_opt_u64(o) == seq![1u8] + spec_u64_to_le_bytes(w));
                                lemma_unchain(
                                    b@,
                                    pos as int,
                                    seq![1u8],
                                    spec_u64_to_le_bytes(w),
                                );
                            }
                        }
                        Some((Some(v), end))
                    },
                    None => {
                        proof {
                            assert forall|o: Option<u64>|
                                (#[trigger] enc_opt_u64(o)).is_prefix_of(
                                    b@.skip(pos as int),
                                ) implies false by {
                                assert(enc_opt_u64(o)[0] == b@.skip(pos as int)[0]);
                                let w = o->0;
                                assert(enc_opt_u64(o) == seq![1u8] + spec_u64_to_le_bytes(w));
                                lemma_unchain(
                                    b@,
                                    pos as int,
                                    seq![1u8],
                                    spec_u64_to_le_bytes(w),
                                );
                            }
                        }
                        None
                    },
                }
            } else {
                proof {
                    assert forall|o: Option<u64>|
                        (#[trigger] enc_opt_u64(o)).is_prefix_of(
                            b@.skip(pos as int),
                        ) implies false by {
                        assert(enc_opt_u64(o)[0] == b@.skip(pos as int)[0]);
                    }
                }
                None
            }
        },
    }
}

/// Read one string field.  Whenever the bytes at `pos` start with the
/// encoding of some string, that string is returned, compared by contents.
fn take_str(b: &Vec<u8>, pos: usize) -> (r: Option<(String, usize)>)
    requires
        pos <= b@.len(),
    ensures
        r matches Some((t, end)) ==> pos <= end <= b@.len(),
        forall|s: Seq<char>|
            str_fits(s) && (#[trigger] enc_str(s)).is_prefix_of(b@.skip(pos as int)) ==> (
            r matches Some((t, end)) && t@ == s && end == pos + enc_str(s).len()),
{
    proof {
        lemma_auto_spec_u64_to_from_le_bytes();
    }
    match take_u64(b, pos) {
        None => {
            proof {
                assert forall|s: Seq<char>|
                    str_fits(s) && (#[trigger] enc_str(s)).is_prefix_of(
                        b@.skip(pos as int),
                    ) implies false by {
                    lemma_unchain(
                        b@,
                        pos as int,
                        spec_u64_to_le_bytes(encode_utf8(s).len() as u64),
                        encode_utf8(s),
                    );
                }
            }
            None
        },
        Some((len64, p1)) => {
            if len64 <= (b.len() - p1) as u64 {
                let len = len64 as usize;
                let bytes = slice_to_vec(slice_subrange(b.as_slice(), p1, p1 + len));
                let ghost got = bytes@;
                match string_from_utf8(bytes) {
                    Some(t) => {
                        let end = p1 + len;
                        proof {
                            assert forall|s: Seq<char>|
                                str_fits(s) && (#[trigger] enc_str(s)).is_prefix_of(
                                    b@.skip(pos as int),
                                ) implies (t@ == s && end == pos + enc_str(s).len()) by {
                                lemma_unchain(
                                    b@,
                                    pos as int,
                                    spec_u64_to_le_bytes(encode_utf8(s).len() as u64),
                                    encode_utf8(s),
                                );
                                assert(len64 == encode_utf8(s).len());
                                assert(encode_utf8(s) =~= got);
                                assert(encode_utf8(t@) == got);
                                encode_utf8_decode_utf8(s);
                                encode_utf8_decode_utf8(t@);
                            }
                        }
                        Some((t, end))
                    },
                    None => {
                        proof {
                            assert forall|s: Seq<char>|
                                str_fits(s) && (#[trigger] enc_str(s)).is_prefix_of(
                                    b@.skip(pos as int),
                                ) implies false by {
                                lemma_unchain(
                                    b@,
                                    pos as int,
                                    spec_u64_to_le_bytes(encode_utf8(s).len() as u64),
                                    encode_utf8(s),
                                );
                                assert(len64 == encode_utf8(s).len());
                                assert(encode_utf8(s) =~= got);
                                encode_utf8_valid_utf8(s);
                            }
                        }
                        None
                    },
                }
            } else {
                proof {
                    assert forall|s: Seq<char>|
                        str_fits(s) && (#[trigger] enc_str(s)).is_prefix_of(
                            b@.skip(pos as int),
                        ) implies false by {
                        lemma_unchain(
                            b@,
                            pos as int,
                            spec_u64_to_le_bytes(encode_utf8(s).len() as u64),
                            encode_utf8(s),
                        );
                        assert(len64 == encode_utf8(s).len());
                    }
                }
                None
            }
        },
    }
}


/// Every string field of the record is short enough to encode.
pub open spec fn system_info_fits(x: SystemInfo) -> bool {
    str_fits(x.name@) && str_fits(x.os_version@) && str_fits(x.kernel_version@) && str_fits(
        x.hostname@,
    )
}

/// Wire form of a host-identity record: the four strings, then uptime and
/// boot time.
pub open spec fn enc_system_info(x: SystemInfo) -> Seq<u8> {
    enc_str(x.name@) + (enc_str(x.os_version@) + (enc_str(x.kernel_version@) + (enc_str(
        x.hostname@,
    ) + (spec_u64_to_le_bytes(x.uptime) + spec_u64_to_le_bytes(x.boot_time)))))
}

/// Field-for-field equality, strings compared by contents.
pub open spec fn system_info_eqv(a: SystemInfo, b: SystemInfo) -> bool {
    &&& a.name@ == b.name@
    &&& a.os_version@ == b.os_version@
    &&& a.kernel_version@ == b.kernel_version@
    &&& a.hostname@ == b.hostname@
    &&& a.uptime == b.uptime
    &&& a.boot_time == b.boot_time
}

/// Append the wire form of a host-identity record.
pub fn encode_system_info(out: &mut Vec<u8>, x: &SystemInfo)
    ensures
        final(out)@ == old(out)@ + enc_system_info(*x),
        system_info_fits(*x),
{
    put_str(out, x.name.as_str());
    put_str(out, x.os_version.as_str());
    put_str(out, x.kernel_version.as_str());
    put_str(out, x.hostname.as_str());
    put_u64(out, x.uptime);
    put_u64(out, x.boot_time);
    proof {
        assert(out@ =~= old(out)@ + enc_system_info(*x));
    }
}

proof fn lemma_system_info_peel(b: Seq<u8>, pos: int, x: SystemInfo)
    requires
        0 <= pos <= b.len(),
        enc_system_info(x).is_prefix_of(b.skip(pos)),
    ensures
        ({
            let q1 = pos + enc_str(x.name@).len();
            let q2 = q1 + enc_str(x.os_version@).len();
            let q3 = q2 + enc_str(x.kernel_version@).len();
            let q4 = q3 + enc_str(x.hostname@).len();
            &&& enc_str(x.name@).is_prefix_of(b.skip(pos))
            &&& enc_str(x.os_version@).is_prefix_of(b.skip(q1))
            &&& enc_str(x.kernel_version@).is_prefix_of(b.skip(q2))
            &&& enc_str(x.hostname@).is_prefix_of(b.skip(q3))
            &&& spec_u64_to_le_bytes(x.uptime).is_prefix_of(b.skip(q4))
            &&& spec_u64_to_le_bytes(x.boot_time).is_prefix_of(b.skip(q4 + 8))
            &&& q4 + 16 <= b.len()
            &&& enc_system_info(x).len() == q4 + 16 - pos
        }),
{
    lemma_auto_spec_u64_to_from_le_bytes();
    let q1 = pos + enc_str(x.name@).len();
    let q2 = q1 + enc_str(x.os_version@).len();
    let q3 = q2 + enc_str(x.kernel_version@).len();
    let q4 = q3 + enc_str(x.hostname@).len();
    lemma_unchain(
        b,
        pos,
        enc_str(x.name@),
        enc_str(x.os_version@) + (enc_str(x.kernel_version@) + (enc_str(x.hostname@) + (
        spec_u64_to_le_bytes(x.uptime) + spec_u64_to_le_bytes(x.boot_time)))),
    );
    lemma_unchain(
        b,
        q1,
        enc_str(x.os_version@),
        enc_str(x.kernel_version@) + (enc_str(x.hostname@) + (spec_u64_to_le_bytes(x.uptime)
            + spec_u64_to_le_bytes(x.boot_time))),
    );
    lemma_unchain(
        b,
        q2,
        enc_str(x.kernel_version@),
        enc_str(x.hostname@) + (spec_u64_to_le_bytes(x.uptime) + spec_u64_to_le_bytes(
            x.boot_time,
        )),
    );
    lemma_unchain(
        b,
        q3,
        enc_str(x.hostname@),
        spec_u64_to_le_bytes(x.uptime) + spec_u64_to_le_bytes(x.boot_time),
    );
    lemma_unchain(b, q4, spec_u64_to_le_bytes(x.uptime), spec_u64_to_le_bytes(x.boot_time));
}

/// Parse a host-identity record.  Whenever the bytes at `pos` start with the
/// encoding of some record, that record is returned, field for field.
pub fn decode_system_info(b: &Vec<u8>, pos: usize) -> (r: Option<(SystemInfo, usize)>)
    requires
        pos <= b@.len(),
    ensures
        r matches Some((y, end)) ==> pos <= end <= b@.len(),
        forall|x: SystemInfo|
            system_info_fits(x) && (#[trigger] enc_system_info(x)).is_prefix_of(
                b@.skip(pos as int),
            ) ==> (r matches Some((y, end)) && system_info_eqv(y, x) && end == pos
                + enc_system_info(x).len()),
{
    let r1 = take_str(b, pos);
    let (name, p1) = match r1 {
        Some(v) => v,
        None => {
            proof {
                assert forall|x: SystemInfo|
                    system_info_fits(x) && (#[trigger] enc_system_info(x)).is_prefix_of(
                        b@.skip(pos as int),
                    ) implies false by {
                    lemma_system_info_peel(b@, pos as int, x);
                }
            }
            return None;
        },
    };
    let r2 = take_str(b, p1);
    let (os_version, p2) = match r2 {
        Some(v) => v,
        None => {
            proof {
                assert forall|x: SystemInfo|
                    system_info_fits(x) && (#[trigger] enc_system_info(x)).is_prefix_of(
                        b@.skip(pos as int),
                    ) implies false by {
                    lemma_system_info_peel(b@, pos as int, x);
                }
            }
            return None;
        },
    };
    let r3 = take_str(b, p2);
    let (kernel_version, p3) = match r3 {
        Some(v) => v,
        None => {
            proof {
                assert forall|x: SystemInfo|
                    system_info_fits(x) && (#[trigger] enc_system_info(x)).is_prefix_of(
                        b@.skip(pos as int),
                    ) implies false by {
                    lemma_system_info_peel(b@, pos as int, x);
                }
            }
            return None;
        },
    };
    let r4 = take_str(b, p3);
    let (hostname, p4) = match r4 {
        Some(v) => v,
        None => {
            proof {
                assert forall|x: SystemInfo|
                    system_info_fits(x) && (#[trigger] enc_system_info(x)).is_prefix_of(
                        b@.skip(pos as int),
                    ) implies false by {
                    lemma_system_info_peel(b@, pos as int, x);
                }
            }
            return None;
        },
    };
    let r5 = take_u64(b, p4);
    let (uptime, p5) = match r5 {
        Some(v) => v,
        None => {
            proof {
                assert forall|x: SystemInfo|
                    system_info_fits(x) && (#[trigger] enc_system_info(x)).is_prefix_of(
                        b@.skip(pos as int),
                    ) implies false by {
                    lemma_system_info_peel(b@, pos as int, x);
                }
            }
            return None;
        },
    };
    let r6 = take_u64(b, p5);
    let (boot_time, p6) = match r6 {
        Some(v) => v,
        None => {
            proof {
                assert forall|x: SystemInfo|
                    system_info_fits(x) && (#[trigger] enc_system_info(x)).is_prefix_of(
                        b@.skip(pos as int),
                    ) implies false by {
                    lemma_system_info_peel(b@, pos as int, x);
                }
            }
            return None;
        },
    };
    let y = SystemInfo { name, os_version, kernel_version, hostname, uptime, boot_time };
    proof {
        assert forall|x: SystemInfo|
            system_info_fits(x) && (#[trigger] enc_system_info(x)).is_prefix_of(
                b@.skip(pos as int),
            ) implies (system_info_eqv(y, x) && p6 == pos + enc_system_info(x).len()) by {
            lemma_system_info_peel(b@, pos as int, x);
        }
    }
    Some((y, p6))
}

/// Wire form of a memory snapshot: its six byte counts and the derived
/// percentage, as 8-byte fields.
pub open spec fn enc_memory_info(x: MemoryInfo) -> Seq<u8> {
    spec_u64_to_le_bytes(x.total) + (spec_u64_to_le_bytes(x.used) + (spec_u64_to_le_bytes(
        x.available,
    ) + (spec_u64_to_le_bytes(x.usage_percent) + (spec_u64_to_le_bytes(x.swap_total)
        + spec_u64_to_le_bytes(x.swap_used)))))
}

/// Append the wire form of a memory snapshot.
pub fn encode_memory_info(out: &mut Vec<u8>, x: &MemoryInfo)
    ensures
        final(out)@ == old(out)@ + enc_memory_info(*x),
{
    put_u64(out, x.total);
    put_u64(out, x.used);
    put_u64(out, x.available);
    put_u64(out, x.usage_percent);
    put_u64(out, x.swap_total);
    put_u64(out, x.swap_used);
    proof {
        assert(out@ =~= old(out)@ + enc_memory_info(*x));
    }
}

proof fn lemma_memory_info_peel(b: Seq<u8>, pos: int, x: MemoryInfo)
    requires
        0 <= pos <= b.len(),
        enc_memory_info(x).is_prefix_of(b.skip(pos)),
    ensures
        spec_u64_to_le_bytes(x.total).is_prefix_of(b.skip(pos)),
        spec_u64_to_le_bytes(x.used).is_prefix_of(b.skip(pos + 8)),
        spec_u64_to_le_bytes(x.available).is_prefix_of(b.skip(pos + 16)),
        spec_u64_to_le_bytes(x.usage_percent).is_prefix_of(b.skip(pos + 24)),
        spec_u64_to_le_bytes(x.swap_total).is_prefix_of(b.skip(pos + 32)),
        spec_u64_to_le_bytes(x.swap_used).is_prefix_of(b.skip(pos + 40)),
        pos + 48 <= b.len(),
        enc_memory_info(x).len() == 48,
{
    lemma_auto_spec_u64_to_from_le_bytes();
    lemma_unchain(
        b,
        pos,
        spec_u64_to_le_bytes(x.total),
        spec_u64_to_le_bytes(x.used) + (spec_u64_to_le_bytes(x.available) + (spec_u64_to_le_bytes(
            x.usage_percent,
        ) + (spec_u64_to_le_bytes(x.swap_total) + spec_u64_to_le_bytes(x.swap_used)))),
    );
    lemma_unchain(
        b,
        pos + 8,
        spec_u64_to_le_bytes(x.used),
        spec_u64_to_le_bytes(x.available) + (spec_u64_to_le_bytes(x.usage_percent) + (
        spec_u64_to_le_bytes(x.swap_total) + spec_u64_to_le_bytes(x.swap_used))),
    );
    lemma_unchain(
        b,
        pos + 16,
        spec_u64_to_le_bytes(x.available),
        spec_u64_to_le_bytes(x.usage_percent) + (spec_u64_to_le_bytes(x.swap_total)
            + spec_u64_to_le_bytes(x.swap_used)),
    );
    lemma_unchain(
        b,
        pos + 24,
        spec_u64_to_le_bytes(x.usage_percent),
        spec_u64_to_le_bytes(x.swap_total) + spec_u64_to_le_bytes(x.swap_used),
    );
    lemma_unchain(
        b,
        pos + 32,
        spec_u64_to_le_bytes(x.swap_total),
        spec_u64_to_le_bytes(x.swap_used),
    );
}

/// Parse a memory snapshot.  Whenever the bytes at `pos` start with the
/// encoding of some record, exactly that record is returned.
pub fn decode_memory_info(b: &Vec<u8>, pos: usize) -> (r: Option<(MemoryInfo, usize)>)
    requires
        pos <= b@.len(),
    ensures
        r matches Some((y, end)) ==> pos <= end <= b@.len(),
        forall|x: MemoryInfo|
            (#[trigger] enc_memory_info(x)).is_prefix_of(b@.skip(pos as int)) ==> (r matches Some(
                (y, end),
            ) && y == x && end == pos + enc_memory_info(x).len()),
{
    let r1 = take_u64(b, pos);
    let (total, p1) = match r1 {
        Some(v) => v,
        None => {
            proof {
                assert forall|x: MemoryInfo|
                    (#[trigger] enc_memory_info(x)).is_prefix_of(
                        b@.skip(pos as int),
                    ) implies false by {
                    lemma_memory_info_peel(b@, pos as int, x);
                }
            }
            return None;
        },
    };
    let r2 = take_u64(b, p1);
    let (used, p2) = match r2 {
        Some(v) => v,
        None => {
            proof {
                assert forall|x: MemoryInfo|
                    (#[trigger] enc_memory_info(x)).is_prefix_of(
                        b@.skip(pos as int),
                    ) implies false by {
                    lemma_memory_info_peel(b@, pos as int, x);
                }
            }
            return None;
        },
    };
    let r3 = take_u64(b, p2);
    let (available, p3) = match r3 {
        Some(v) => v,
        None => {
            proof {
                assert forall|x: MemoryInfo|
                    (#[trigger] enc_memory_info(x)).is_prefix_of(
                        b@.skip(pos as int),
                    ) implies false by {
                    lemma_memory_info_peel(b@, pos as int, x);
                }
            }
            return None;
        },
    };
    let r4 = take_u64(b, p3);
    let (usage_percent, p4) = match r4 {
        Some(v) => v,
        None => {
            proof {
                assert forall|x: MemoryInfo|
                    (#[trigger] enc_memory_info(x)).is_prefix_of(
                        b@.skip(pos as int),
                    ) implies false by {
                    lemma_memory_info_peel(b@, pos as int, x);
                }
            }
            return None;
        },
    };
    let r5 = take_u64(b, p4);
    let (swap_total, p5) = match r5 {
        Some(v) => v,
        None => {
            proof {
                assert forall|x: MemoryInfo|
                    (#[trigger] enc_memory_info(x)).is_prefix_of(
                        b@.skip(pos as int),
                    ) implies false by {
                    lemma_memory_info_peel(b@, pos as int, x);
                }
            }
            return None;
        },
    };
    let r6 = take_u64(b, p5);
    let (swap_used, p6) = match r6 {
        Some(v) => v,
        None => {
            proof {
                assert forall|x: MemoryInfo|
                    (#[trigger] enc_memory_info(x)).is_prefix_of(
                        b@.skip(pos as int),
                    ) implies false by {
                    lemma_memory_info_peel(b@, pos as int, x);
                }
            }
            return None;
        },
    };
    let y = MemoryInfo { total, used, available, usage_percent, swap_total, swap_used };
    proof {
        assert forall|x: MemoryInfo|
            (#[trigger] enc_memory_info(x)).is_prefix_of(b@.skip(pos as int)) implies (y == x && p6
            == pos + enc_memory_info(x).len()) by {
            lemma_memory_info_peel(b@, pos as int, x);
        }
    }
    Some((y, p6))
}


/// Every string field of the record is short enough to encode.
pub open spec fn cpu_info_fits(x: CpuInfo) -> bool {
    str_fits(x.name@) && str_fits(x.brand@)
}

/// Field-for-field equality, strings compared by contents.
pub open spec fn cpu_info_eqv(a: CpuInfo, b: CpuInfo) -> bool {
    &&& a.name@ == b.name@
    &&& a.brand@ == b.brand@
    &&& a.usage == b.usage
    &&& a.frequency == b.frequency
    &&& a.cores == b.cores
    &&& a.physical_cores == b.physical_cores
}

/// Wire form of a CPU snapshot: the two strings, usage and frequency, then the core counts as 8-byte fields.
pub open spec fn enc_cpu_info(x: CpuInfo) -> Seq<u8> {
    enc_str(x.name@) + (enc_str(x.brand@) + (spec_u64_to_le_bytes(x.usage) + (spec_u64_to_le_bytes(x.frequency) + (spec_u64_to_le_bytes(x.cores as u64) + (spec_u64_to_le_bytes(x.physical_cores as u64))))))
}

/// Append the wire form of the record.
pub fn encode_cpu_info(out: &mut Vec<u8>, x: &CpuInfo)
    ensures
        final(out)@ == old(out)@ + enc_cpu_info(*x),
        cpu_info_fits(*x),
{
    put_str(out, x.name.as_str());
    put_str(out, x.brand.as_str());
    put_u64(out, x.usage);
    put_u64(out, x.frequency);
    put_u64(out, x.cores as u64);
    put_u64(out, x.physical_cores as u64);
    proof {
        assert(out@ =~= old(out)@ + enc_cpu_info(*x));
    }
}

proof fn lemma_cpu_info_peel(b: Seq<u8>, pos: int, x: CpuInfo)
    requires
        0 <= pos <= b.len(),
        enc_cpu_info(x).is_prefix_of(b.skip(pos)),
    ensures
        ({
            let q1 = pos + enc_str(x.name@).len();
            let q2 = q1 + enc_str(x.brand@).len();
            let q3 = q2 + 8;
            let q4 = q3 + 8;
            let q5 = q4 + 8;
            let q6 = q5 + 8;
            &&& enc_str(x.name@).is_prefix_of(b.skip(pos))
            &&& enc_str(x.brand@).is_prefix_of(b.skip(q1))
            &&& spec_u64_to_le_bytes(x.usage).is_prefix_of(b.skip(q2))
            &&& spec_u64_to_le_bytes(x.frequency).is_prefix_of(b.skip(q3))
            &&& spec_u64_to_le_bytes(x.cores as u64).is_prefix_of(b.skip(q4))
            &&& spec_u64_to_le_bytes(x.physical_cores as u64).is_prefix_of(b.skip(q5))
            &&& q6 <= b.len()
            &&& enc_cpu_info(x).len() == q6 - pos
        }),
{
    lemma_auto_spec_u64_to_from_le_bytes();
    let q1 = pos + enc_str(x.name@).len();
    let q2 = q1 + enc_str(x.brand@).len();
    let q3 = q2 + 8;
    let q4 = q3 + 8;
    let q5 = q4 + 8;
    let q6 = q5 + 8;
    lemma_unchain(b, pos, enc_str(x.name@), enc_str(x.brand@) + (spec_u64_to_le_bytes(x.usage) + (spec_u64_to_le_bytes(x.frequency) + (spec_u64_to_le_bytes(x.cores as u64) + (spec_u64_to_le_bytes(x.physical_cores as u64))))));
    lemma_unchain(b, q1, enc_str(x.brand@), spec_u64_to_le_bytes(x.usage) + (spec_u64_to_le_bytes(x.frequency) + (spec_u64_to_le_bytes(x.cores as u64) + (spec_u64_to_le_bytes(x.physical_cores as u64)))));
    lemma_unchain(b, q2, spec_u64_to_le_bytes(x.usage), spec_u64_to_le_bytes(x.frequency) + (spec_u64_to_le_bytes(x.cores as u64) + (spec_u64_to_le_bytes(x.physical_cores as u64))));
    lemma_unchain(b, q3, spec_u64_to_le_bytes(x.frequency), spec_u64_to_le_bytes(x.cores as u64) + (spec_u64_to_le_bytes(x.physical_cores as u64)));
    lemma_unchain(b, q4, spec_u64_to_le_bytes(x.cores as u64), spec_u64_to_le_bytes(x.physical_cores as u64));
}

/// Parse the record.  Whenever the bytes at `pos` start with the encoding
/// of some record, that record is returned, field for field.
pub fn decode_cpu_info(b: &Vec<u8>, pos: usize) -> (r: Option<(CpuInfo, usize)>)
    requires
        pos <= b@.len(),
    ensures
        r matches Some((y, end)) ==> pos <= end <= b@.len(),
        forall|x: CpuInfo|
            cpu_info_fits(x) && (#[trigger] enc_cpu_info(x)).is_prefix_of(b@.skip(pos as int)) ==> (r matches Some((y, end)) && cpu_info_eqv(y, x) && end == pos + enc_cpu_info(x).len()),
{
    let r1 = take_str(b, pos);
    let (name, p1) = match r1 {
        Some(v) => v,
        None => {
            proof {
                assert forall|x: CpuInfo|
                    cpu_info_fits(x) && (#[trigger] enc_cpu_info(x)).is_prefix_of(b@.skip(pos as int)) implies false by {
                    lemma_cpu_info_peel(b@, pos as int, x);
                }
            }
            return None;
        },
    };
    let r2 = take_str(b, p1);
    let (brand, p2) = match r2 {
        Some(v) => v,
        None => {
            proof {
                assert forall|x: CpuInfo|
                    cpu_info_fits(x) && (#[trigger] enc_cpu_info(x)).is_prefix_of(b@.skip(pos as int)) implies false by {
                    lemma_cpu_info_peel(b@, pos as int, x);
                }
            }
            return None;
        },
    };
    let r3 = take_u64(b, p2);
    let (usage, p3) = match r3 {
        Some(v) => v,
        None => {
            proof {
                assert forall|x: CpuInfo|
                    cpu_info_fits(x) && (#[trigger] enc_cpu_info(x)).is_prefix_of(b@.skip(pos as int)) implies false by {
                    lemma_cpu_info_peel(b@, pos as int, x);
                }
            }
            return None;
        },
    };
    let r4 = take_u64(b, p3);
    let (frequency, p4) = match r4 {
        Some(v) => v,
        None => {
            proof {
                assert forall|x: CpuInfo|
                    cpu_info_fits(x) && (#[trigger] enc_cpu_info(x)).is_prefix_of(b@.skip(pos as int)) implies false by {
                    lemma_cpu_info_peel(b@, pos as int, x);
                }
            }
            return None;
        },
    };
    let r5 = take_usize(b, p4);
    let (cores, p5) = match r5 {
        Some(v) => v,
        None => {
            proof {
                assert forall|x: CpuInfo|
                    cpu_info_fits(x) && (#[trigger] enc_cpu_info(x)).is_prefix_of(b@.skip(pos as int)) implies false by {
                    lemma_cpu_info_peel(b@, pos as int, x);
                }
            }
            return None;
        },
    };
    let r6 = take_usize(b, p5);
    let (physical_cores, p6) = match r6 {
        Some(v) => v,
        None => {
            proof {
                assert forall|x: CpuInfo|
                    cpu_info_fits(x) && (#[trigger] enc_cpu_info(x)).is_prefix_of(b@.skip(pos as int)) implies false by {
                    lemma_cpu_info_peel(b@, pos as int, x);
                }
            }
            return None;
        },
    };
    let y = CpuInfo { name, brand, usage, frequency, cores, physical_cores };
    proof {
        assert forall|x: CpuInfo|
            cpu_info_fits(x) && (#[trigger] enc_cpu_info(x)).is_prefix_of(b@.skip(pos as int)) implies (cpu_info_eqv(y, x) && p6 == pos + enc_cpu_info(x).len()) by {
            lemma_cpu_info_peel(b@, pos as int, x);
        }
    }
    Some((y, p6))
}

/// Every string field of the record is short enough to encode.
pub open spec fn disk_info_fits(x: DiskInfo) -> bool {
    str_fits(x.name@) && str_fits(x.mount_point@) && str_fits(x.file_system@)
}

/// Field-for-field equality, strings compared by contents.
pub open spec fn disk_info_eqv(a: DiskInfo, b: DiskInfo) -> bool {
    &&& a.name@ == b.name@
    &&& a.mount_point@ == b.mount_point@
    &&& a.total_space == b.total_space
    &&& a.available_space == b.available_space
    &&& a.used_space == b.used_space
    &&& a.usage_percent == b.usage_percent
    &&& a.file_system@ == b.file_system@
}

/// Wire form of a disk snapshot: the identification strings around the space figures.
pub open spec fn enc_disk_info(x: DiskInfo) -> Seq<u8> {
    enc_str(x.name@) + (enc_str(x.mount_point@) + (spec_u64_to_le_bytes(x.total_space) + (spec_u64_to_le_bytes(x.available_space) + (spec_u64_to_le_bytes(x.used_space) + (spec_u64_to_le_bytes(x.usage_percent) + (enc_str(x.file_system@)))))))
}

/// Append the wire form of the record.
pub fn encode_disk_info(out: &mut Vec<u8>, x: &DiskInfo)
    ensures
        final(out)@ == old(out)@ + enc_disk_info(*x),
        disk_info_fits(*x),
{
    put_str(out, x.name.as_str());
    put_str(out, x.mount_point.as_str());
    put_u64(out, x.total_space);
    put_u64(out, x.available_space);
    put_u64(out, x.used_space);
    put_u64(out, x.usage_percent);
    put_str(out, x.file_system.as_str());
    proof {
        assert(out@ =~= old(out)@ + enc_disk_info(*x));
    }
}

proof fn lemma_disk_info_peel(b: Seq<u8>, pos: int, x: DiskInfo)
    requires
        0 <= pos <= b.len(),
        enc_disk_info(x).is_prefix_of(b.skip(pos)),
    ensures
        ({
            let q1 = pos + enc_str(x.name@).len();
            let q2 = q1 + enc_str(x.mount_point@).len();
            let q3 = q2 + 8;
            let q4 = q3 + 8;
            let q5 = q4 + 8;
            let q6 = q5 + 8;
            let q7 = q6 + enc_str(x.file_system@).len();
            &&& enc_str(x.name@).is_prefix_of(b.skip(pos))
            &&& enc_str(x.mount_point@).is_prefix_of(b.skip(q1))
            &&& spec_u64_to_le_bytes(x.total_space).is_prefix_of(b.skip(q2))
            &&& spec_u64_to_le_bytes(x.available_space).is_prefix_of(b.skip(q3))
            &&& spec_u64_to_le_bytes(x.used_space).is_prefix_of(b.skip(q4))
            &&& spec_u64_to_le_bytes(x.usage_percent).is_prefix_of(b.skip(q5))
            &&& enc_str(x.file_system@).is_prefix_of(b.skip(q6))
            &&& q7 <= b.len()
            &&& enc_disk_info(x).len() == q7 - pos
        }),
{
    lemma_auto_spec_u64_to_from_le_bytes();
    let q1 = pos + enc_str(x.name@).len();
    let q2 = q1 + enc_str(x.mount_point@).len();
    let q3 = q2 + 8;
    let q4 = q3 + 8;
    let q5 = q4 + 8;
    let q6 = q5 + 8;
    let q7 = q6 + enc_str(x.file_system@).len();
    lemma_unchain(b, pos, enc_str(x.name@), enc_str(x.mount_point@) + (spec_u64_to_le_bytes(x.total_space) + (spec_u64_to_le_bytes(x.available_space) + (spec_u64_to_le_bytes(x.used_space) + (spec_u64_to_le_bytes(x.usage_percent) + (enc_str(x.file_system@)))))));
    lemma_unchain(b, q1, enc_str(x.mount_point@), spec_u64_to_le_bytes(x.total_space) + (spec_u64_to_le_bytes(x.available_space) + (spec_u64_to_le_bytes(x.used_space) + (spec_u64_to_le_bytes(x.usage_percent) + (enc_str(x.file_system@))))));
    lemma_unchain(b, q2, spec_u64_to_le_bytes(x.total_space), spec_u64_to_le_bytes(x.available_space) + (spec_u64_to_le_bytes(x.used_space) + (spec_u64_to_le_bytes(x.usage_percent) + (enc_str(x.file_system@)))));
    lemma_unchain(b, q3, spec_u64_to_le_bytes(x.available_space), spec_u64_to_le_bytes(x.used_space) + (spec_u64_to_le_bytes(x.usage_percent) + (enc_str(x.file_system@))));
    lemma_unchain(b, q4, spec_u64_to_le_bytes(x.used_space), spec_u64_to_le_bytes(x.usage_percent) + (enc_str(x.file_system@)));
    lemma_unchain(b, q5, spec_u64_to_le_bytes(x.usage_percent), enc_str(x.file_system@));
}

/// Parse the record.  Whenever the bytes at `pos` start with the encoding
/// of some record, that record is returned, field for field.
pub fn decode_disk_info(b: &Vec<u8>, pos: usize) -> (r: Option<(DiskInfo, usize)>)
    requires
        pos <= b@.len(),
    ensures
        r matches Some((y, end)) ==> pos <= end <= b@.len(),
        forall|x: DiskInfo|
            disk_info_fits(x) && (#[trigger] enc_disk_info(x)).is_prefix_of(b@.skip(pos as int)) ==> (r matches Some((y, end)) && disk_info_eqv(y, x) && end == pos + enc_disk_info(x).len()),
{
    let r1 = take_str(b, pos);
    let (name, p1) = match r1 {
        Some(v) => v,
        None => {
            proof {
                assert forall|x: DiskInfo|
                    disk_info_fits(x) && (#[trigger] enc_disk_info(x)).is_prefix_of(b@.skip(pos as int)) implies false by {
                    lemma_disk_info_peel(b@, pos as int, x);
                }
            }
            return None;
        },
    };
    let r2 = take_str(b, p1);
    let (mount_point, p2) = match r2 {
        Some(v) => v,
        None => {
            proof {
                assert forall|x: DiskInfo|
                    disk_info_fits(x) && (#[trigger] enc_disk_info(x)).is_prefix_of(b@.skip(pos as int)) implies false by {
                    lemma_disk_info_peel(b@, pos as int, x);
                }
            }
            return None;
        },
    };
    let r3 = take_u64(b, p2);
    let (total_space, p3) = match r3 {
        Some(v) => v,
        None => {
            proof {
                assert forall|x: DiskInfo|
                    disk_info_fits(x) && (#[trigger] enc_disk_info(x)).is_prefix_of(b@.skip(pos as int)) implies false by {
                    lemma_disk_info_peel(b@, pos as int, x);
                }
            }
            return None;
        },
    };
    let r4 = take_u64(b, p3);
    let (available_space, p4) = match r4 {
        Some(v) => v,
        None => {
            proof {
                assert forall|x: DiskInfo|
                    disk_info_fits(x) && (#[trigger] enc_disk_info(x)).is_prefix_of(b@.skip(pos as int)) implies false by {
                    lemma_disk_info_peel(b@, pos as int, x);
                }
            }
            return None;
        },
    };
    let r5 = take_u64(b, p4);
    let (used_space, p5) = match r5 {
        Some(v) => v,
        None => {
            proof {
                assert forall|x: DiskInfo|
                    disk_info_fits(x) && (#[trigger] enc_disk_info(x)).is_prefix_of(b@.skip(pos as int)) implies false by {
                    lemma_disk_info_peel(b@, pos as int, x);
                }
            }
            return None;
        },
    };
    let r6 = take_u64(b, p5);
    let (usage_percent, p6) = match r6 {
        Some(v) => v,
        None => {
            proof {
                assert forall|x: DiskInfo|
                    disk_info_fits(x) && (#[trigger] enc_disk_info(x)).is_prefix_of(b@.skip(pos as int)) implies false by {
                    lemma_disk_info_peel(b@, pos as int, x);
                }
            }
            return None;
        },
    };
    let r7 = take_str(b, p6);
    let (file_system, p7) = match r7 {
        Some(v) => v,
        None => {
            proof {
                assert forall|x: DiskInfo|
                    disk_info_fits(x) && (#[trigger] enc_disk_info(x)).is_prefix_of(b@.skip(pos as int)) implies false by {
                    lemma_disk_info_peel(b@, pos as int, x);
                }
            }
            return None;
        },
    };
    let y = DiskInfo { name, mount_point, total_space, available_space, used_space, usage_percent, file_system };
    proof {
        assert forall|x: DiskInfo|
            disk_info_fits(x) && (#[trigger] enc_disk_info(x)).is_prefix_of(b@.skip(pos as int)) implies (disk_info_eqv(y, x) && p7 == pos + enc_disk_info(x).len()) by {
            lemma_disk_info_peel(b@, pos as int, x);
        }
    }
    Some((y, p7))
}

/// Every string field of the record is short enough to encode.
pub open spec fn network_info_fits(x: NetworkInfo) -> bool {
    str_fits(x.name@)
}

/// Field-for-field equality, strings compared by contents.
pub open spec fn network_info_eqv(a: NetworkInfo, b: NetworkInfo) -> bool {
    &&& a.name@ == b.name@
    &&& a.received == b.received
    &&& a.transmitted == b.transmitted
}

/// Wire form of a network-interface record: the name, then the two counters.
pub open spec fn enc_network_info(x: NetworkInfo) -> Seq<u8> {
    enc_str(x.name@) + (spec_u64_to_le_bytes(x.received) + (spec_u64_to_le_bytes(x.transmitted)))
}

/// Append the wire form of the record.
pub fn encode_network_info(out: &mut Vec<u8>, x: &NetworkInfo)
    ensures
        final(out)@ == old(out)@ + enc_network_info(*x),
        network_info_fits(*x),
{
    put_str(out, x.name.as_str());
    put_u64(out, x.received);
    put_u64(out, x.transmitted);
    proof {
        assert(out@ =~= old(out)@ + enc_network_info(*x));
    }
}

proof fn lemma_network_info_peel(b: Seq<u8>, pos: int, x: NetworkInfo)
    requires
        0 <= pos <= b.len(),
        enc_network_info(x).is_prefix_of(b.skip(pos)),
    ensures
        ({
            let q1 = pos + enc_str(x.name@).len();
            let q2 = q1 + 8;
            let q3 = q2 + 8;
            &&& enc_str(x.name@).is_prefix_of(b.skip(pos))
            &&& spec_u64_to_le_bytes(x.received).is_prefix_of(b.skip(q1))
            &&& spec_u64_to_le_bytes(x.transmitted).is_prefix_of(b.skip(q2))
            &&& q3 <= b.len()
            &&& enc_network_info(x).len() == q3 - pos
        }),
{
    lemma_auto_spec_u64_to_from_le_bytes();
    let q1 = pos + enc_str(x.name@).len();
    let q2 = q1 + 8;
    let q3 = q2 + 8;
    lemma_unchain(b, pos, enc_str(x.name@), spec_u64_to_le_bytes(x.received) + (spec_u64_to_le_bytes(x.transmitted)));
    lemma_unchain(b, q1, spec_u64_to_le_bytes(x.received), spec_u64_to_le_bytes(x.transmitted));
}

/// Parse the record.  Whenever the bytes at `pos` start with the encoding
/// of some record, that record is returned, field for field.
pub fn decode_network_info(b: &Vec<u8>, pos: usize) -> (r: Option<(NetworkInfo, usize)>)
    requires
        pos <= b@.len(),
    ensures
        r matches Some((y, end)) ==> pos <= end <= b@.len(),
        forall|x: NetworkInfo|
            network_info_fits(x) && (#[trigger] enc_network_info(x)).is_prefix_of(b@.skip(pos as int)) ==> (r matches Some((y, end)) && network_info_eqv(y, x) && end == pos + enc_network_info(x).len()),
{
    let r1 = take_str(b, pos);
    let (name, p1) = match r1 {
        Some(v) => v,
        None => {
            proof {
                assert forall|x: NetworkInfo|
                    network_info_fits(x) && (#[trigger] enc_network_info(x)).is_prefix_of(b@.skip(pos as int)) implies false by {
                    lemma_network_info_peel(b@, pos as int, x);
                }
            }
            return None;
        },
    };
    let r2 = take_u64(b, p1);
    let (received, p2) = match r2 {
        Some(v) => v,
        None => {
            proof {
                assert forall|x: NetworkInfo|
                    network_info_fits(x) && (#[trigger] enc_network_info(x)).is_prefix_of(b@.skip(pos as int)) implies false by {
                    lemma_network_info_peel(b@, pos as int, x);
                }
            }
            return None;
        },
    };
    let r3 = take_u64(b, p2);
    let (transmitted, p3) = match r3 {
        Some(v) => v,
        None => {
            proof {
                assert forall|x: NetworkInfo|
                    network_info_fits(x) && (#[trigger] enc_network_info(x)).is_prefix_of(b@.skip(pos as int)) implies false by {
                    lemma_network_info_peel(b@, pos as int, x);
                }
            }
            return None;
        },
    };
    let y = NetworkInfo { name, received, transmitted };
    proof {
        assert forall|x: NetworkInfo|
            network_info_fits(x) && (#[trigger] enc_network_info(x)).is_prefix_of(b@.skip(pos as int)) implies (network_info_eqv(y, x) && p3 == pos + enc_network_info(x).len()) by {
            lemma_network_info_peel(b@, pos as int, x);
        }
    }
    Some((y, p3))
}

/// Every string field of the record is short enough to encode.
pub open spec fn process_info_fits(x: ProcessInfo) -> bool {
    str_fits(x.name@)
}

/// Field-for-field equality, strings compared by contents.
pub open spec fn process_info_eqv(a: ProcessInfo, b: ProcessInfo) -> bool {
    &&& a.name@ == b.name@
    &&& a.pid == b.pid
    &&& a.cpu_usage == b.cpu_usage
    &&& a.memory == b.memory
    &&& a.gpu_usage == b.gpu_usage
}

/// Wire form of a process snapshot: the name, the pid, then the usage figures.
pub open spec fn enc_process_info(x: ProcessInfo) -> Seq<u8> {
    enc_str(x.name@) + (spec_u64_to_le_bytes(x.pid as u64) + (spec_u64_to_le_bytes(x.cpu_usage) + (spec_u64_to_le_bytes(x.memory) + (spec_u64_to_le_bytes(x.gpu_usage)))))
}

/// Append the wire form of the record.
pub fn encode_process_info(out: &mut Vec<u8>, x: &ProcessInfo)
    ensures
        final(out)@ == old(out)@ + enc_process_info(*x),
        process_info_fits(*x),
{
    put_str(out, x.name.as_str());
    put_u64(out, x.pid as u64);
    put_u64(out, x.cpu_usage);
    put_u64(out, x.memory);
    put_u64(out, x.gpu_usage);
    proof {
        assert(out@ =~= old(out)@ + enc_process_info(*x));
    }
}

proof fn lemma_process_info_peel(b: Seq<u8>, pos: int, x: ProcessInfo)
    requires
        0 <= pos <= b.len(),
        enc_process_info(x).is_prefix_of(b.skip(pos)),
    ensures
        ({
            let q1 = pos + enc_str(x.name@).len();
            let q2 = q1 + 8;
            let q3 = q2 + 8;
            let q4 = q3 + 8;
            let q5 = q4 + 8;
            &&& enc_str(x.name@).is_prefix_of(b.skip(pos))
            &&& spec_u64_to_le_bytes(x.pid as u64).is_prefix_of(b.skip(q1))
            &&& spec_u64_to_le_bytes(x.cpu_usage).is_prefix_of(b.skip(q2))
            &&& spec_u64_to_le_bytes(x.memory).is_prefix_of(b.skip(q3))
            &&& spec_u64_to_le_bytes(x.gpu_usage).is_prefix_of(b.skip(q4))
            &&& q5 <= b.len()
            &&& enc_process_info(x).len() == q5 - pos
        }),
{
    lemma_auto_spec_u64_to_from_le_bytes();
    let q1 = pos + enc_str(x.name@).len();
    let q2 = q1 + 8;
    let q3 = q2 + 8;
    let q4 = q3 + 8;
    let q5 = q4 + 8;
    lemma_unchain(b, pos, enc_str(x.name@), spec_u64_to_le_bytes(x.pid as u64) + (spec_u64_to_le_bytes(x.cpu_usage) + (spec_u64_to_le_bytes(x.memory) + (spec_u64_to_le_bytes(x.gpu_usage)))));
    lemma_unchain(b, q1, spec_u64_to_le_bytes(x.pid as u64), spec_u64_to_le_bytes(x.cpu_usage) + (spec_u64_to_le_bytes(x.memory) + (spec_u64_to_le_bytes(x.gpu_usage))));
    lemma_unchain(b, q2, spec_u64_to_le_bytes(x.cpu_usage), spec_u64_to_le_bytes(x.memory) + (spec_u64_to_le_bytes(x.gpu_usage)));
    lemma_unchain(b, q3, spec_u64_to_le_bytes(x.memory), spec_u64_to_le_bytes(x.gpu_usage));
}

/// Parse the record.  Whenever the bytes at `pos` start with the encoding
/// of some record, that record is returned, field for field.
pub fn decode_process_info(b: &Vec<u8>, pos: usize) -> (r: Option<(ProcessInfo, usize)>)
    requires
        pos <= b@.len(),
    ensures
        r matches Some((y, end)) ==> pos <= end <= b@.len(),
        forall|x: ProcessInfo|
            process_info_fits(x) && (#[trigger] enc_process_info(x)).is_prefix_of(b@.skip(pos as int)) ==> (r matches Some((y, end)) && process_info_eqv(y, x) && end == pos + enc_process_info(x).len()),
{
    let r1 = take_str(b, pos);
    let (name, p1) = match r1 {
        Some(v) => v,
        None => {
            proof {
                assert forall|x: ProcessInfo|
                    process_info_fits(x) && (#[trigger] enc_process_info(x)).is_prefix_of(b@.skip(pos as int)) implies false by {
                    lemma_process_info_peel(b@, pos as int, x);
                }
            }
            return None;
        },
    };
    let r2 = take_u32(b, p1);
    let (pid, p2) = match r2 {
        Some(v) => v,
        None => {
            proof {
                assert forall|x: ProcessInfo|
                    process_info_fits(x) && (#[trigger] enc_process_info(x)).is_prefix_of(b@.skip(pos as int)) implies false by {
                    lemma_process_info_peel(b@, pos as int, x);
                }
            }
            return None;
        },
    };
    let r3 = take_u64(b, p2);
    let (cpu_usage, p3) = match r3 {
        Some(v) => v,
        None => {
            proof {
                assert forall|x: ProcessInfo|
                    process_info_fits(x) && (#[trigger] enc_process_info(x)).is_prefix_of(b@.skip(pos as int)) implies false by {
                    lemma_process_info_peel(b@, pos as int, x);
                }
            }
            return None;
        },
    };
    let r4 = take_u64(b, p3);
    let (memory, p4) = match r4 {
        Some(v) => v,
        None => {
            proof {
                assert forall|x: ProcessInfo|
                    process_info_fits(x) && (#[trigger] enc_process_info(x)).is_prefix_of(b@.skip(pos as int)) implies false by {
                    lemma_process_info_peel(b@, pos as int, x);
                }
            }
            return None;
        },
    };
    let r5 = take_u64(b, p4);
    let (gpu_usage, p5) = match r5 {
        Some(v) => v,
        None => {
            proof {
                assert forall|x: ProcessInfo|
                    process_info_fits(x) && (#[trigger] enc_process_info(x)).is_prefix_of(b@.skip(pos as int)) implies false by {
                    lemma_process_info_peel(b@, pos as int, x);
                }
            }
            return None;
        },
    };
    let y = ProcessInfo { name, pid, cpu_usage, memory, gpu_usage };
    proof {
        assert forall|x: ProcessInfo|
            process_info_fits(x) && (#[trigger] enc_process_info(x)).is_prefix_of(b@.skip(pos as int)) implies (process_info_eqv(y, x) && p5 == pos + enc_process_info(x).len()) by {
            lemma_process_info_peel(b@, pos as int, x);
        }
    }
    Some((y, p5))
}

/// Every string field of the record is short enough to encode.
pub open spec fn temperature_info_fits(x: TemperatureInfo) -> bool {
    str_fits(x.component@)
}

/// Field-for-field equality, strings compared by contents.
pub open spec fn temperature_info_eqv(a: TemperatureInfo, b: TemperatureInfo) -> bool {
    &&& a.component@ == b.component@
    &&& a.temperature == b.temperature
    &&& a.max_temperature == b.max_temperature
    &&& a.critical_temperature == b.critical_temperature
}

/// Wire form of a temperature reading: the label, the reading, then the two optional bounds.
pub open spec fn enc_temperature_info(x: TemperatureInfo) -> Seq<u8> {
    enc_str(x.component@) + (spec_u64_to_le_bytes(x.temperature) + (enc_opt_u64(x.max_temperature) + (enc_opt_u64(x.critical_temperature))))
}

/// Append the wire form of the record.
pub fn encode_temperature_info(out: &mut Vec<u8>, x: &TemperatureInfo)
    ensures
        final(out)@ == old(out)@ + enc_temperature_info(*x),
        temperature_info_fits(*x),
{
    put_str(out, x.component.as_str());
    put_u64(out, x.temperature);
    put_opt_u64(out, x.max_temperature);
    put_opt_u64(out, x.critical_temperature);
    proof {
        assert(out@ =~= old(out)@ + enc_temperature_info(*x));
    }
}

proof fn lemma_temperature_info_peel(b: Seq<u8>, pos: int, x: TemperatureInfo)
    requires
        0 <= pos <= b.len(),
        enc_temperature_info(x).is_prefix_of(b.skip(pos)),
    ensures
        ({
            let q1 = pos + enc_str(x.component@).len();
            let q2 = q1 + 8;
            let q3 = q2 + enc_opt_u64(x.max_temperature).len();
            let q4 = q3 + enc_opt_u64(x.critical_temperature).len();
            &&& enc_str(x.component@).is_prefix_of(b.skip(pos))
            &&& spec_u64_to_le_bytes(x.temperature).is_prefix_of(b.skip(q1))
            &&& enc_opt_u64(x.max_temperature).is_prefix_of(b.skip(q2))
            &&& enc_opt_u64(x.critical_temperature).is_prefix_of(b.skip(q3))
            &&& q4 <= b.len()
            &&& enc_temperature_info(x).len() == q4 - pos
        }),
{
    lemma_auto_spec_u64_to_from_le_bytes();
    let q1 = pos + enc_str(x.component@).len();
    let q2 = q1 + 8;
    let q3 = q2 + enc_opt_u64(x.max_temperature).len();
    let q4 = q3 + enc_opt_u64(x.critical_temperature).len();
    lemma_unchain(b, pos, enc_str(x.component@), spec_u64_to_le_bytes(x.temperature) + (enc_opt_u64(x.max_temperature) + (enc_opt_u64(x.critical_temperature))));
    lemma_unchain(b, q1, spec_u64_to_le_bytes(x.temperature), enc_opt_u64(x.max_temperature) + (enc_opt_u64(x.critical_temperature)));
    lemma_unchain(b, q2, enc_opt_u64(x.max_temperature), enc_opt_u64(x.critical_temperature));
}

/// Parse the record.  Whenever the bytes at `pos` start with the encoding
/// of some record, that record is returned, field for field.
pub fn decode_temperature_info(b: &Vec<u8>, pos: usize) -> (r: Option<(TemperatureInfo, usize)>)
    requires
        pos <= b@.len(),
    ensures
        r matches Some((y, end)) ==> pos <= end <= b@.len(),
        forall|x: TemperatureInfo|
            temperature_info_fits(x) && (#[trigger] enc_temperature_info(x)).is_prefix_of(b@.skip(pos as int)) ==> (r matches Some((y, end)) && temperature_info_eqv(y, x) && end == pos + enc_temperature_info(x).len()),
{
    let r1 = take_str(b, pos);
    let (component, p1) = match r1 {
        Some(v) => v,
        None => {
            proof {
                assert forall|x: TemperatureInfo|
                    temperature_info_fits(x) && (#[trigger] enc_temperature_info(x)).is_prefix_of(b@.skip(pos as int)) implies false by {
                    lemma_temperature_info_peel(b@, pos as int, x);
                }
            }
            return None;
        },
    };
    let r2 = take_u64(b, p1);
    let (temperature, p2) = match r2 {
        Some(v) => v,
        None => {
            proof {
                assert forall|x: TemperatureInfo|
                    temperature_info_fits(x) && (#[trigger] enc_temperature_info(x)).is_prefix_of(b@.skip(pos as int)) implies false by {
                    lemma_temperature_info_peel(b@, pos as int, x);
                }
            }
            return None;
        },
    };
    let r3 = take_opt_u64(b, p2);
    let (max_temperature, p3) = match r3 {
        Some(v) => v,
        None => {
            proof {
                assert forall|x: TemperatureInfo|
                    temperature_info_fits(x) && (#[trigger] enc_temperature_info(x)).is_prefix_of(b@.skip(pos as int)) implies false by {
                    lemma_temperature_info_peel(b@, pos as int, x);
                }
            }
            return None;
        },
    };
    let r4 = take_opt_u64(b, p3);
    let (critical_temperature, p4) = match r4 {
        Some(v) => v,
        None => {
            proof {
                assert forall|x: TemperatureInfo|
                    temperature_info_fits(x) && (#[trigger] enc_temperature_info(x)).is_prefix_of(b@.skip(pos as int)) implies false by {
                    lemma_temperature_info_peel(b@, pos as int, x);
                }
            }
            return None;
        },
    };
    let y = TemperatureInfo { component, temperature, max_temperature, critical_temperature };
    proof {
        assert forall|x: TemperatureInfo|
            temperature_info_fits(x) && (#[trigger] enc_temperature_info(x)).is_prefix_of(b@.skip(pos as int)) implies (temperature_info_eqv(y, x) && p4 == pos + enc_temperature_info(x).len()) by {
            lemma_temperature_info_peel(b@, pos as int, x);
        }
    }
    Some((y, p4))
}

/// Wire form of the realtime scalar metrics: four 8-byte fields.
pub open spec fn enc_realtime_stats(x: RealtimeStats) -> Seq<u8> {
    spec_u64_to_le_bytes(x.cpu_usage) + (spec_u64_to_le_bytes(x.memory_usage) + (spec_u64_to_le_bytes(x.memory_used_gb) + (spec_u64_to_le_bytes(x.memory_total_gb))))
}

/// Append the wire form of the record.
pub fn encode_realtime_stats(out: &mut Vec<u8>, x: &RealtimeStats)
    ensures
        final(out)@ == old(out)@ + enc_realtime_stats(*x),
{
    put_u64(out, x.cpu_usage);
    put_u64(out, x.memory_usage);
    put_u64(out, x.memory_used_gb);
    put_u64(out, x.memory_total_gb);
    proof {
        assert(out@ =~= old(out)@ + enc_realtime_stats(*x));
    }
}

proof fn lemma_realtime_stats_peel(b: Seq<u8>, pos: int, x: RealtimeStats)
    requires
        0 <= pos <= b.len(),
        enc_realtime_stats(x).is_prefix_of(b.skip(pos)),
    ensures
        ({
            let q1 = pos + 8;
            let q2 = q1 + 8;
            let q3 = q2 + 8;
            let q4 = q3 + 8;
            &&& spec_u64_to_le_bytes(x.cpu_usage).is_prefix_of(b.skip(pos))
            &&& spec_u64_to_le_bytes(x.memory_usage).is_prefix_of(b.skip(q1))
            &&& spec_u64_to_le_bytes(x.memory_used_gb).is_prefix_of(b.skip(q2))
            &&& spec_u64_to_le_bytes(x.memory_total_gb).is_prefix_of(b.skip(q3))
            &&& q4 <= b.len()
            &&& enc_realtime_stats(x).len() == q4 - pos
        }),
{
    lemma_auto_spec_u64_to_from_le_bytes();
    let q1 = pos + 8;
    let q2 = q1 + 8;
    let q3 = q2 + 8;
    let q4 = q3 + 8;
    lemma_unchain(b, pos, spec_u64_to_le_bytes(x.cpu_usage), spec_u64_to_le_bytes(x.memory_usage) + (spec_u64_to_le_bytes(x.memory_used_gb) + (spec_u64_to_le_bytes(x.memory_total_gb))));
    lemma_unchain(b, q1, spec_u64_to_le_bytes(x.memory_usage), spec_u64_to_le_bytes(x.memory_used_gb) + (spec_u64_to_le_bytes(x.memory_total_gb)));
    lemma_unchain(b, q2, spec_u64_to_le_bytes(x.memory_used_gb), spec_u64_to_le_bytes(x.memory_total_gb));
}

/// Parse the record.  Whenever the bytes at `pos` start with the encoding
/// of some record, that record is returned, field for field.
pub fn decode_realtime_stats(b: &Vec<u8>, pos: usize) -> (r: Option<(RealtimeStats, usize)>)
    requires
        pos <= b@.len(),
    ensures
        r matches Some((y, end)) ==> pos <= end <= b@.len(),
        forall|x: RealtimeStats|
            (#[trigger] enc_realtime_stats(x)).is_prefix_of(b@.skip(pos as int)) ==> (r matches Some((y, end)) && y == x && end == pos + enc_realtime_stats(x).len()),
{
    let r1 = take_u64(b, pos);
    let (cpu_usage, p1) = match r1 {
        Some(v) => v,
        None => {
            proof {
                assert forall|x: RealtimeStats|
                    (#[trigger] enc_realtime_stats(x)).is_prefix_of(b@.skip(pos as int)) implies false by {
                    lemma_realtime_stats_peel(b@, pos as int, x);
                }
            }
            return None;
        },
    };
    let r2 = take_u64(b, p1);
    let (memory_usage, p2) = match r2 {
        Some(v) => v,
        None => {
            proof {
                assert forall|x: RealtimeStats|
                    (#[trigger] enc_realtime_stats(x)).is_prefix_of(b@.skip(pos as int)) implies false by {
                    lemma_realtime_stats_peel(b@, pos as int, x);
                }
            }
            return None;
        },
    };
    let r3 = take_u64(b, p2);
    let (memory_used_gb, p3) = match r3 {
        Some(v) => v,
        None => {
            proof {
                assert forall|x: RealtimeStats|
                    (#[trigger] enc_realtime_stats(x)).is_prefix_of(b@.skip(pos as int)) implies false by {
                    lemma_realtime_stats_peel(b@, pos as int, x);
                }
            }
            return None;
        },
    };
    let r4 = take_u64(b, p3);
    let (memory_total_gb, p4) = match r4 {
        Some(v) => v,
        None => {
            proof {
                assert forall|x: RealtimeStats|
                    (#[trigger] enc_realtime_stats(x)).is_prefix_of(b@.skip(pos as int)) implies false by {
                    lemma_realtime_stats_peel(b@, pos as int, x);
                }
            }
            return None;
        },
    };
    let y = RealtimeStats { cpu_usage, memory_usage, memory_used_gb, memory_total_gb };
    proof {
        assert forall|x: RealtimeStats|
            (#[trigger] enc_realtime_stats(x)).is_prefix_of(b@.skip(pos as int)) implies (y == x && p4 == pos + enc_realtime_stats(x).len()) by {
            lemma_realtime_stats_peel(b@, pos as int, x);
        }
    }
    Some((y, p4))
}


/// Wire form of a list body of `u64` items: the items' encodings, in order.
pub open spec fn enc_u64_items(s: Seq<u64>) -> Seq<u8>
    decreases s.len(),
{
    if s.len() == 0 {
        Seq::empty()
    } else {
        spec_u64_to_le_bytes(s[0]) + enc_u64_items(s.drop_first())
    }
}

/// Wire form of a `u64` list: 8-byte count, then the items.
pub open spec fn enc_u64_list(s: Seq<u64>) -> Seq<u8> {
    spec_u64_to_le_bytes(s.len() as u64) + enc_u64_items(s)
}

proof fn lemma_enc_u64_items_push(s: Seq<u64>, v: u64)
    ensures
        enc_u64_items(s.push(v)) == enc_u64_items(s) + spec_u64_to_le_bytes(v),
    decreases s.len(),
{
    lemma_auto_spec_u64_to_from_le_bytes();
    let t = s.push(v);
    if s.len() == 0 {
        assert(t.drop_first() =~= Seq::<u64>::empty());
        assert(t[0] == v);
        assert(enc_u64_items(t) == spec_u64_to_le_bytes(v) + enc_u64_items(Seq::<u64>::empty()));
        assert(enc_u64_items(t) =~= enc_u64_items(s) + spec_u64_to_le_bytes(v));
    } else {
        assert(t.drop_first() =~= s.drop_first().push(v));
        lemma_enc_u64_items_push(s.drop_first(), v);
        assert(t[0] == s[0]);
        assert(enc_u64_items(t) == spec_u64_to_le_bytes(s[0]) + enc_u64_items(t.drop_first()));
        assert(enc_u64_items(s) == spec_u64_to_le_bytes(s[0]) + enc_u64_items(s.drop_first()));
        assert(enc_u64_items(t) =~= enc_u64_items(s) + spec_u64_to_le_bytes(v));
    }
}

proof fn lemma_enc_u64_items_len(s: Seq<u64>)
    ensures
        enc_u64_items(s).len() >= s.len(),
    decreases s.len(),
{
    lemma_auto_spec_u64_to_from_le_bytes();
    if s.len() > 0 {
        lemma_enc_u64_items_len(s.drop_first());
    }
}

proof fn lemma_enc_u64_items_split(s: Seq<u64>, i: int)
    requires
        0 <= i < s.len(),
    ensures
        enc_u64_items(s) == enc_u64_items(s.take(i)) + (spec_u64_to_le_bytes(s[i])
            + enc_u64_items(s.skip(i + 1))),
    decreases i,
{
    lemma_auto_spec_u64_to_from_le_bytes();
    if i == 0 {
        assert(s.take(0) =~= Seq::<u64>::empty());
        assert(s.drop_first() =~= s.skip(1));
        assert(enc_u64_items(s) =~= enc_u64_items(s.take(0)) + (spec_u64_to_le_bytes(s[0])
            + enc_u64_items(s.skip(1))));
    } else {
        lemma_enc_u64_items_split(s.drop_first(), i - 1);
        assert(s.take(i).drop_first() =~= s.drop_first().take(i - 1));
        assert(s.skip(i + 1) =~= s.drop_first().skip(i));
        assert(enc_u64_items(s.take(i)) == spec_u64_to_le_bytes(s[0]) + enc_u64_items(
            s.drop_first().take(i - 1),
        ));
        assert(enc_u64_items(s) =~= enc_u64_items(s.take(i)) + (spec_u64_to_le_bytes(s[i])
            + enc_u64_items(s.skip(i + 1))));
    }
}

/// Append the wire form of a `u64` list.
fn put_u64_list(out: &mut Vec<u8>, v: &Vec<u64>)
    ensures
        final(out)@ == old(out)@ + enc_u64_list(v@),
        v@.len() <= u64::MAX,
{
    let n: usize = v.len();
    put_u64(out, n as u64);
    let mut i: usize = 0;
    proof {
        assert(v@.take(0) =~= Seq::<u64>::empty());
    }
    while i < n
        invariant
            i <= n,
            n == v@.len(),
            out@ == old(out)@ + spec_u64_to_le_bytes(n as u64) + enc_u64_items(v@.take(i as int)),
        decreases n - i,
    {
        put_u64(out, v[i]);
        proof {
            assert(v@.take(i + 1) =~= v@.take(i as int).push(v@[i as int]));
            lemma_enc_u64_items_push(v@.take(i as int), v@[i as int]);
        }
        i = i + 1;
    }
    proof {
        assert(v@.take(n as int) =~= v@);
        assert(out@ =~= old(out)@ + enc_u64_list(v@));
    }
}

/// Read a `u64` list.  Whenever the bytes at `pos` start with the encoding
/// of some list, exactly that list is returned.
fn take_u64_list(b: &Vec<u8>, pos: usize) -> (r: Option<(Vec<u64>, usize)>)
    requires
        pos <= b@.len(),
    ensures
        r matches Some((v, end)) ==> pos <= end <= b@.len(),
        forall|xs: Seq<u64>|
            xs.len() <= u64::MAX && (#[trigger] enc_u64_list(xs)).is_prefix_of(
                b@.skip(pos as int),
            ) ==> (r matches Some((ys, end)) && ys@ == xs && end == pos + enc_u64_list(xs).len()),
{
    proof {
        lemma_auto_spec_u64_to_from_le_bytes();
    }
    let blen: usize = b.len();
    let r0 = take_u64(b, pos);
    let (count64, p0) = match r0 {
        Some(v) => v,
        None => {
            proof {
                assert forall|xs: Seq<u64>|
                    xs.len() <= u64::MAX && (#[trigger] enc_u64_list(xs)).is_prefix_of(
                        b@.skip(pos as int),
                    ) implies false by {
                    lemma_unchain(b@, pos as int, spec_u64_to_le_bytes(xs.len() as u64), enc_u64_items(xs));
                }
            }
            return None;
        },
    };
    if count64 > blen as u64 {
        proof {
            assert forall|xs: Seq<u64>|
                xs.len() <= u64::MAX && (#[trigger] enc_u64_list(xs)).is_prefix_of(
                    b@.skip(pos as int),
                ) implies false by {
                lemma_unchain(b@, pos as int, spec_u64_to_le_bytes(xs.len() as u64), enc_u64_items(xs));
                lemma_enc_u64_items_len(xs);
            }
        }
        return None;
    }
    let count: usize = count64 as usize;
    let mut ys: Vec<u64> = Vec::new();
    let mut p: usize = p0;
    let mut i: usize = 0;
    proof {
        assert forall|xs: Seq<u64>| true implies enc_u64_items(xs.take(0)).len() == 0 by {
            assert(xs.take(0) =~= Seq::<u64>::empty());
            assert(enc_u64_items(Seq::<u64>::empty()) =~= Seq::<u8>::empty());
        }
    }
    while i < count
        invariant
            i <= count,
            pos <= p <= b@.len(),
            p0 == pos + 8,
            pos + 8 <= b@.len(),
            count == count64,
            b@.subrange(pos as int, pos as int + 8) == spec_u64_to_le_bytes(count64),
            ys@.len() == i,
            forall|xs: Seq<u64>|
                xs.len() <= u64::MAX && (#[trigger] enc_u64_list(xs)).is_prefix_of(
                    b@.skip(pos as int),
                ) && xs.len() == count ==> (ys@ =~= xs.take(i as int)) && p == pos + 8
                    + enc_u64_items(xs.take(i as int)).len(),
        decreases count - i,
    {
        let ri = take_u64(b, p);
        let (y, pnew) = match ri {
            Some(v) => v,
            None => {
                proof {
                    assert forall|xs: Seq<u64>|
                        xs.len() <= u64::MAX && (#[trigger] enc_u64_list(xs)).is_prefix_of(
                            b@.skip(pos as int),
                        ) implies false by {
                        lemma_auto_spec_u64_to_from_le_bytes();
                        lemma_unchain(b@, pos as int, spec_u64_to_le_bytes(xs.len() as u64), enc_u64_items(xs));
                        assert(spec_u64_to_le_bytes(xs.len() as u64) =~= b@.subrange(
                            pos as int,
                            pos as int + 8,
                        ));
                        assert(xs.len() == count);
                        lemma_enc_u64_items_split(xs, i as int);
                        lemma_unchain(
                            b@,
                            pos + 8,
                            enc_u64_items(xs.take(i as int)),
                            spec_u64_to_le_bytes(xs[i as int]) + enc_u64_items(xs.skip(i + 1)),
                        );
                        lemma_unchain(
                            b@,
                            p as int,
                            spec_u64_to_le_bytes(xs[i as int]),
                            enc_u64_items(xs.skip(i + 1)),
                        );
                    }
                }
                return None;
            },
        };
        ys.push(y);
        proof {
            assert forall|xs: Seq<u64>|
                xs.len() <= u64::MAX && (#[trigger] enc_u64_list(xs)).is_prefix_of(
                    b@.skip(pos as int),
                ) && xs.len() == count implies (ys@ =~= xs.take(i + 1)) && pnew == pos + 8
                    + enc_u64_items(xs.take(i + 1)).len() by {
                lemma_auto_spec_u64_to_from_le_bytes();
                lemma_unchain(b@, pos as int, spec_u64_to_le_bytes(xs.len() as u64), enc_u64_items(xs));
                lemma_enc_u64_items_split(xs, i as int);
                lemma_unchain(
                    b@,
                    pos + 8,
                    enc_u64_items(xs.take(i as int)),
                    spec_u64_to_le_bytes(xs[i as int]) + enc_u64_items(xs.skip(i + 1)),
                );
                assert(xs.take(i + 1) =~= xs.take(i as int).push(xs[i as int]));
                lemma_enc_u64_items_push(xs.take(i as int), xs[i as int]);
            }
        }
        i = i + 1;
        p = pnew;
    }
    proof {
        assert forall|xs: Seq<u64>|
            xs.len() <= u64::MAX && (#[trigger] enc_u64_list(xs)).is_prefix_of(
                b@.skip(pos as int),
            ) implies (ys@ == xs && p == pos + enc_u64_list(xs).len()) by {
            lemma_auto_spec_u64_to_from_le_bytes();
            lemma_unchain(b@, pos as int, spec_u64_to_le_bytes(xs.len() as u64), enc_u64_items(xs));
            assert(spec_u64_to_le_bytes(xs.len() as u64) =~= b@.subrange(
                pos as int,
                pos as int + 8,
            ));
            assert(xs.len() == count);
            assert(xs.take(count as int) =~= xs);
        }
    }
    Some((ys, p))
}


/// Every item is well formed and the count fits the 8-byte field.
pub open spec fn temperature_info_list_fits(s: Seq<TemperatureInfo>) -> bool {
    s.len() <= u64::MAX && (forall|j: int| 0 <= j < s.len() ==> temperature_info_fits(#[trigger] s[j]))
}

/// Pointwise field-for-field equality of two listings.
pub open spec fn temperature_info_list_eqv(a: Seq<TemperatureInfo>, b: Seq<TemperatureInfo>) -> bool {
    a.len() == b.len() && (forall|j: int| 0 <= j < a.len() ==> temperature_info_eqv(#[trigger] a[j], b[j]))
}

/// Wire form of a list body: the items' encodings, in order.
pub open spec fn enc_temperature_info_items(s: Seq<TemperatureInfo>) -> Seq<u8>
    decreases s.len(),
{
    if s.len() == 0 {
        Seq::empty()
    } else {
        enc_temperature_info(s[0]) + enc_temperature_info_items(s.drop_first())
    }
}

/// Wire form of a list: 8-byte count, then the items.
pub open spec fn enc_temperature_info_list(s: Seq<TemperatureInfo>) -> Seq<u8> {
    spec_u64_to_le_bytes(s.len() as u64) + enc_temperature_info_items(s)
}

proof fn lemma_enc_temperature_info_items_push(s: Seq<TemperatureInfo>, v: TemperatureInfo)
    ensures
        enc_temperature_info_items(s.push(v)) == enc_temperature_info_items(s) + enc_temperature_info(v),
    decreases s.len(),
{
    lemma_auto_spec_u64_to_from_le_bytes();
    let t = s.push(v);
    if s.len() == 0 {
        assert(t.drop_first() =~= Seq::<TemperatureInfo>::empty());
        assert(t[0] == v);
        assert(enc_temperature_info_items(t) == enc_temperature_info(v) + enc_temperature_info_items(Seq::<TemperatureInfo>::empty()));
        assert(enc_temperature_info_items(t) =~= enc_temperature_info_items(s) + enc_temperature_info(v));
    } else {
        assert(t.drop_first() =~= s.drop_first().push(v));
        lemma_enc_temperature_info_items_push(s.drop_first(), v);
        assert(t[0] == s[0]);
        assert(enc_temperature_info_items(t) == enc_temperature_info(t[0]) + enc_temperature_info_items(t.drop_first()));
        assert(enc_temperature_info_items(s) == enc_temperature_info(s[0]) + enc_temperature_info_items(s.drop_first()));
        assert(enc_temperature_info_items(t) =~= enc_temperature_info_items(s) + enc_temperature_info(v));
    }
}

proof fn lemma_enc_temperature_info_items_len(s: Seq<TemperatureInfo>)
    ensures
        enc_temperature_info_items(s).len() >= s.len(),
    decreases s.len(),
{
    lemma_auto_spec_u64_to_from_le_bytes();
    if s.len() > 0 {
        lemma_enc_temperature_info_items_len(s.drop_first());
    }
}

proof fn lemma_enc_temperature_info_items_split(s: Seq<TemperatureInfo>, i: int)
    requires
        0 <= i < s.len(),
    ensures
        enc_temperature_info_items(s) == enc_temperature_info_items(s.take(i)) + (enc_temperature_info(s[i]) + enc_temperature_info_items(
            s.skip(i + 1),
        )),
    decreases i,
{
    lemma_auto_spec_u64_to_from_le_bytes();
    if i == 0 {
        assert(s.take(0) =~= Seq::<TemperatureInfo>::empty());
        assert(s.drop_first() =~= s.skip(1));
        assert(enc_temperature_info_items(s) =~= enc_temperature_info_items(s.take(0)) + (enc_temperature_info(s[0]) + enc_temperature_info_items(
            s.skip(1),
        )));
    } else {
        lemma_enc_temperature_info_items_split(s.drop_first(), i - 1);
        assert(s.take(i).drop_first() =~= s.drop_first().take(i - 1));
        assert(s.skip(i + 1) =~= s.drop_first().skip(i));
        assert(enc_temperature_info_items(s.take(i)) == enc_temperature_info(s[0]) + enc_temperature_info_items(s.drop_first().take(
            i - 1,
        )));
        assert(enc_temperature_info_items(s) =~= enc_temperature_info_items(s.take(i)) + (enc_temperature_info(s[i]) + enc_temperature_info_items(
            s.skip(i + 1),
        )));
    }
}

/// Append the wire form of a listing.
pub fn put_temperature_info_list(out: &mut Vec<u8>, v: &Vec<TemperatureInfo>)
    ensures
        final(out)@ == old(out)@ + enc_temperature_info_list(v@),
        temperature_info_list_fits(v@),
{
    let n: usize = v.len();
    put_u64(out, n as u64);
    let mut i: usize = 0;
    proof {
        assert(v@.take(0) =~= Seq::<TemperatureInfo>::empty());
    }
    while i < n
        invariant
            i <= n,
            n == v@.len(),
            forall|j: int| 0 <= j < i ==> temperature_info_fits(#[trigger] v@[j]),
            out@ == old(out)@ + spec_u64_to_le_bytes(n as u64) + enc_temperature_info_items(v@.take(i as int)),
        decreases n - i,
    {
        encode_temperature_info(out, &v[i]);
        proof {
            assert(v@.take(i + 1) =~= v@.take(i as int).push(v@[i as int]));
            lemma_enc_temperature_info_items_push(v@.take(i as int), v@[i as int]);
        }
        i = i + 1;
    }
    proof {
        assert(v@.take(n as int) =~= v@);
        assert(out@ =~= old(out)@ + enc_temperature_info_list(v@));
    }
}

/// Read a listing.  Whenever the bytes at `pos` start with the encoding of
/// some listing, that listing is returned, item for item, field for field.
pub fn take_temperature_info_list(b: &Vec<u8>, pos: usize) -> (r: Option<(Vec<TemperatureInfo>, usize)>)
    requires
        pos <= b@.len(),
    ensures
        r matches Some((v, end)) ==> pos <= end <= b@.len(),
        forall|xs: Seq<TemperatureInfo>|
            temperature_info_list_fits(xs) && (#[trigger] enc_temperature_info_list(xs)).is_prefix_of(
                b@.skip(pos as int),
            ) ==> (r matches Some((ys, end)) && temperature_info_list_eqv(ys@, xs) && end == pos + enc_temperature_info_list(
                xs,
            ).len()),
{
    proof {
        lemma_auto_spec_u64_to_from_le_bytes();
    }
    let blen: usize = b.len();
    let r0 = take_u64(b, pos);
    let (count64, p0) = match r0 {
        Some(v) => v,
        None => {
            proof {
                assert forall|xs: Seq<TemperatureInfo>|
                    temperature_info_list_fits(xs) && (#[trigger] enc_temperature_info_list(xs)).is_prefix_of(
                        b@.skip(pos as int),
                    ) implies false by {
                    lemma_unchain(
                        b@,
                        pos as int,
                        spec_u64_to_le_bytes(xs.len() as u64),
                        enc_temperature_info_items(xs),
                    );
                }
            }
            return None;
        },
    };
    if count64 > blen as u64 {
        proof {
            assert forall|xs: Seq<TemperatureInfo>|
                temperature_info_list_fits(xs) && (#[trigger] enc_temperature_info_list(xs)).is_prefix_of(
                    b@.skip(pos as int),
                ) implies false by {
                lemma_unchain(
                    b@,
                    pos as int,
                    spec_u64_to_le_bytes(xs.len() as u64),
                    enc_temperature_info_items(xs),
                );
                lemma_enc_temperature_info_items_len(xs);
            }
        }
        return None;
    }
    let count: usize = count64 as usize;
    let mut ys: Vec<TemperatureInfo> = Vec::new();
    let mut p: usize = p0;
    let mut i: usize = 0;
    proof {
        assert forall|xs: Seq<TemperatureInfo>| true implies enc_temperature_info_items(xs.take(0)).len() == 0 by {
            assert(xs.take(0) =~= Seq::<TemperatureInfo>::empty());
            assert(enc_temperature_info_items(Seq::<TemperatureInfo>::empty()) =~= Seq::<u8>::empty());
        }
    }
    while i < count
        invariant
            i <= count,
            pos <= p <= b@.len(),
            p0 == pos + 8,
            pos + 8 <= b@.len(),
            count == count64,
            b@.subrange(pos as int, pos as int + 8) == spec_u64_to_le_bytes(count64),
            ys@.len() == i,
            forall|xs: Seq<TemperatureInfo>|
                temperature_info_list_fits(xs) && (#[trigger] enc_temperature_info_list(xs)).is_prefix_of(
                    b@.skip(pos as int),
                ) && xs.len() == count ==> (forall|j: int|
                    0 <= j < i ==> temperature_info_eqv(#[trigger] ys@[j], xs[j])) && p == pos + 8
                    + enc_temperature_info_items(xs.take(i as int)).len(),
        decreases count - i,
    {
        let ri = decode_temperature_info(b, p);
        let (y, pnew) = match ri {
            Some(v) => v,
            None => {
                proof {
                    assert forall|xs: Seq<TemperatureInfo>|
                        temperature_info_list_fits(xs) && (#[trigger] enc_temperature_info_list(xs)).is_prefix_of(
                            b@.skip(pos as int),
                        ) implies false by {
                        lemma_auto_spec_u64_to_from_le_bytes();
                        lemma_unchain(
                            b@,
                            pos as int,
                            spec_u64_to_le_bytes(xs.len() as u64),
                            enc_temperature_info_items(xs),
                        );
                        assert(spec_u64_to_le_bytes(xs.len() as u64) =~= b@.subrange(
                            pos as int,
                            pos as int + 8,
                        ));
                        assert(xs.len() == count);
                        lemma_enc_temperature_info_items_split(xs, i as int);
                        lemma_unchain(
                            b@,
                            pos as int + 8,
                            enc_temperature_info_items(xs.take(i as int)),
                            enc_temperature_info(xs[i as int]) + enc_temperature_info_items(xs.skip(i + 1)),
                        );
                        lemma_unchain(
                            b@,
                            p as int,
                            enc_temperature_info(xs[i as int]),
                            enc_temperature_info_items(xs.skip(i + 1)),
                        );
                    }
                }
                return None;
            },
        };
        let ghost ys0 = ys@;
        ys.push(y);
        proof {
            assert forall|xs: Seq<TemperatureInfo>|
                temperature_info_list_fits(xs) && (#[trigger] enc_temperature_info_list(xs)).is_prefix_of(
                    b@.skip(pos as int),
                ) && xs.len() == count implies (forall|j: int|
                0 <= j < i + 1 ==> temperature_info_eqv(#[trigger] ys@[j], xs[j])) && pnew == pos + 8
                + enc_temperature_info_items(xs.take(i + 1)).len() by {
                lemma_auto_spec_u64_to_from_le_bytes();
                lemma_unchain(
                    b@,
                    pos as int,
                    spec_u64_to_le_bytes(xs.len() as u64),
                    enc_temperature_info_items(xs),
                );
                lemma_enc_temperature_info_items_split(xs, i as int);
                lemma_unchain(
                    b@,
                    pos as int + 8,
                    enc_temperature_info_items(xs.take(i as int)),
                    enc_temperature_info(xs[i as int]) + enc_temperature_info_items(xs.skip(i + 1)),
                );
                assert(xs.take(i + 1) =~= xs.take(i as int).push(xs[i as int]));
                lemma_enc_temperature_info_items_push(xs.take(i as int), xs[i as int]);
                assert(enc_temperature_info(xs[i as int]).is_prefix_of(b@.skip(p as int)));
            }
        }
        i = i + 1;
        p = pnew;
    }
    proof {
        assert forall|xs: Seq<TemperatureInfo>|
            temperature_info_list_fits(xs) && (#[trigger] enc_temperature_info_list(xs)).is_prefix_of(
                b@.skip(pos as int),
            ) implies (temperature_info_list_eqv(ys@, xs) && p == pos + enc_temperature_info_list(xs).len()) by {
            lemma_auto_spec_u64_to_from_le_bytes();
            lemma_unchain(
                b@,
                pos as int,
                spec_u64_to_le_bytes(xs.len() as u64),
                enc_temperature_info_items(xs),
            );
            assert(spec_u64_to_le_bytes(xs.len() as u64) =~= b@.subrange(
                pos as int,
                pos as int + 8,
            ));
            assert(xs.len() == count);
            assert(xs.take(count as int) =~= xs);
        }
    }
    Some((ys, p))
}

/// Every item is well formed and the count fits the 8-byte field.
pub open spec fn network_info_list_fits(s: Seq<NetworkInfo>) -> bool {
    s.len() <= u64::MAX && (forall|j: int| 0 <= j < s.len() ==> network_info_fits(#[trigger] s[j]))
}

/// Pointwise field-for-field equality of two listings.
pub open spec fn network_info_list_eqv(a: Seq<NetworkInfo>, b: Seq<NetworkInfo>) -> bool {
    a.len() == b.len() && (forall|j: int| 0 <= j < a.len() ==> network_info_eqv(#[trigger] a[j], b[j]))
}

/// Wire form of a list body: the items' encodings, in order.
pub open spec fn enc_network_info_items(s: Seq<NetworkInfo>) -> Seq<u8>
    decreases s.len(),
{
    if s.len() == 0 {
        Seq::empty()
    } else {
        enc_network_info(s[0]) + enc_network_info_items(s.drop_first())
    }
}

/// Wire form of a list: 8-byte count, then the items.
pub open spec fn enc_network_info_list(s: Seq<NetworkInfo>) -> Seq<u8> {
    spec_u64_to_le_bytes(s.len() as u64) + enc_network_info_items(s)
}

proof fn lemma_enc_network_info_items_push(s: Seq<NetworkInfo>, v: NetworkInfo)
    ensures
        enc_network_info_items(s.push(v)) == enc_network_info_items(s) + enc_network_info(v),
    decreases s.len(),
{
    lemma_auto_spec_u64_to_from_le_bytes();
    let t = s.push(v);
    if s.len() == 0 {
        assert(t.drop_first() =~= Seq::<NetworkInfo>::empty());
        assert(t[0] == v);
        assert(enc_network_info_items(t) == enc_network_info(v) + enc_network_info_items(Seq::<NetworkInfo>::empty()));
        assert(enc_network_info_items(t) =~= enc_network_info_items(s) + enc_network_info(v));
    } else {
        assert(t.drop_first() =~= s.drop_first().push(v));
        lemma_enc_network_info_items_push(s.drop_first(), v);
        assert(t[0] == s[0]);
        assert(enc_network_info_items(t) == enc_network_info(t[0]) + enc_network_info_items(t.drop_first()));
        assert(enc_network_info_items(s) == enc_network_info(s[0]) + enc_network_info_items(s.drop_first()));
        assert(enc_network_info_items(t) =~= enc_network_info_items(s) + enc_network_info(v));
    }
}

proof fn lemma_enc_network_info_items_len(s: Seq<NetworkInfo>)
    ensures
        enc_network_info_items(s).len() >= s.len(),
    decreases s.len(),
{
    lemma_auto_spec_u64_to_from_le_bytes();
    if s.len() > 0 {
        lemma_enc_network_info_items_len(s.drop_first());
    }
}

proof fn lemma_enc_network_info_items_split(s: Seq<NetworkInfo>, i: int)
    requires
        0 <= i < s.len(),
    ensures
        enc_network_info_items(s) == enc_network_info_items(s.take(i)) + (enc_network_info(s[i]) + enc_network_info_items(
            s.skip(i + 1),
        )),
    decreases i,
{
    lemma_auto_spec_u64_to_from_le_bytes();
    if i == 0 {
        assert(s.take(0) =~= Seq::<NetworkInfo>::empty());
        assert(s.drop_first() =~= s.skip(1));
        assert(enc_network_info_items(s) =~= enc_network_info_items(s.take(0)) + (enc_network_info(s[0]) + enc_network_info_items(
            s.skip(1),
        )));
    } else {
        lemma_enc_network_info_items_split(s.drop_first(), i - 1);
        assert(s.take(i).drop_first() =~= s.drop_first().take(i - 1));
        assert(s.skip(i + 1) =~= s.drop_first().skip(i));
        assert(enc_network_info_items(s.take(i)) == enc_network_info(s[0]) + enc_network_info_items(s.drop_first().take(
            i - 1,
        )));
        assert(enc_network_info_items(s) =~= enc_network_info_items(s.take(i)) + (enc_network_info(s[i]) + enc_network_info_items(
            s.skip(i + 1),
        )));
    }
}

/// Append the wire form of a listing.
pub fn put_network_info_list(out: &mut Vec<u8>, v: &Vec<NetworkInfo>)
    ensures
        final(out)@ == old(out)@ + enc_network_info_list(v@),
        network_info_list_fits(v@),
{
    let n: usize = v.len();
    put_u64(out, n as u64);
    let mut i: usize = 0;
    proof {
        assert(v@.take(0) =~= Seq::<NetworkInfo>::empty());
    }
    while i < n
        invariant
            i <= n,
            n == v@.len(),
            forall|j: int| 0 <= j < i ==> network_info_fits(#[trigger] v@[j]),
            out@ == old(out)@ + spec_u64_to_le_bytes(n as u64) + enc_network_info_items(v@.take(i as int)),
        decreases n - i,
    {
        encode_network_info(out, &v[i]);
        proof {
            assert(v@.take(i + 1) =~= v@.take(i as int).push(v@[i as int]));
            lemma_enc_network_info_items_push(v@.take(i as int), v@[i as int]);
        }
        i = i + 1;
    }
    proof {
        assert(v@.take(n as int) =~= v@);
        assert(out@ =~= old(out)@ + enc_network_info_list(v@));
    }
}

/// Read a listing.  Whenever the bytes at `pos` start with the encoding of
/// some listing, that listing is returned, item for item, field for field.
pub fn take_network_info_list(b: &Vec<u8>, pos: usize) -> (r: Option<(Vec<NetworkInfo>, usize)>)
    requires
        pos <= b@.len(),
    ensures
        r matches Some((v, end)) ==> pos <= end <= b@.len(),
        forall|xs: Seq<NetworkInfo>|
            network_info_list_fits(xs) && (#[trigger] enc_network_info_list(xs)).is_prefix_of(
                b@.skip(pos as int),
            ) ==> (r matches Some((ys, end)) && network_info_list_eqv(ys@, xs) && end == pos + enc_network_info_list(
                xs,
            ).len()),
{
    proof {
        lemma_auto_spec_u64_to_from_le_bytes();
    }
    let blen: usize = b.len();
    let r0 = take_u64(b, pos);
    let (count64, p0) = match r0 {
        Some(v) => v,
        None => {
            proof {
                assert forall|xs: Seq<NetworkInfo>|
                    network_info_list_fits(xs) && (#[trigger] enc_network_info_list(xs)).is_prefix_of(
                        b@.skip(pos as int),
                    ) implies false by {
                    lemma_unchain(
                        b@,
                        pos as int,
                        spec_u64_to_le_bytes(xs.len() as u64),
                        enc_network_info_items(xs),
                    );
                }
            }
            return None;
        },
    };
    if count64 > blen as u64 {
        proof {
            assert forall|xs: Seq<NetworkInfo>|
                network_info_list_fits(xs) && (#[trigger] enc_network_info_list(xs)).is_prefix_of(
                    b@.skip(pos as int),
                ) implies false by {
                lemma_unchain(
                    b@,
                    pos as int,
                    spec_u64_to_le_bytes(xs.len() as u64),
                    enc_network_info_items(xs),
                );
                lemma_enc_network_info_items_len(xs);
            }
        }
        return None;
    }
    let count: usize = count64 as usize;
    let mut ys: Vec<NetworkInfo> = Vec::new();
    let mut p: usize = p0;
    let mut i: usize = 0;
    proof {
        assert forall|xs: Seq<NetworkInfo>| true implies enc_network_info_items(xs.take(0)).len() == 0 by {
            assert(xs.take(0) =~= Seq::<NetworkInfo>::empty());
            assert(enc_network_info_items(Seq::<NetworkInfo>::empty()) =~= Seq::<u8>::empty());
        }
    }
    while i < count
        invariant
            i <= count,
            pos <= p <= b@.len(),
            p0 == pos + 8,
            pos + 8 <= b@.len(),
            count == count64,
            b@.subrange(pos as int, pos as int + 8) == spec_u64_to_le_bytes(count64),
            ys@.len() == i,
            forall|xs: Seq<NetworkInfo>|
                network_info_list_fits(xs) && (#[trigger] enc_network_info_list(xs)).is_prefix_of(
                    b@.skip(pos as int),
                ) && xs.len() == count ==> (forall|j: int|
                    0 <= j < i ==> network_info_eqv(#[trigger] ys@[j], xs[j])) && p == pos + 8
                    + enc_network_info_items(xs.take(i as int)).len(),
        decreases count - i,
    {
        let ri = decode_network_info(b, p);
        let (y, pnew) = match ri {
            Some(v) => v,
            None => {
                proof {
                    assert forall|xs: Seq<NetworkInfo>|
                        network_info_list_fits(xs) && (#[trigger] enc_network_info_list(xs)).is_prefix_of(
                            b@.skip(pos as int),
                        ) implies false by {
                        lemma_auto_spec_u64_to_from_le_bytes();
                        lemma_unchain(
                            b@,
                            pos as int,
                            spec_u64_to_le_bytes(xs.len() as u64),
                            enc_network_info_items(xs),
                        );
                        assert(spec_u64_to_le_bytes(xs.len() as u64) =~= b@.subrange(
                            pos as int,
                            pos as int + 8,
                        ));
                        assert(xs.len() == count);
                        lemma_enc_network_info_items_split(xs, i as int);
                        lemma_unchain(
                            b@,
                            pos as int + 8,
                            enc_network_info_items(xs.take(i as int)),
                            enc_network_info(xs[i as int]) + enc_network_info_items(xs.skip(i + 1)),
                        );
                        lemma_unchain(
                            b@,
                            p as int,
                            enc_network_info(xs[i as int]),
                            enc_network_info_items(xs.skip(i + 1)),
                        );
                    }
                }
                return None;
            },
        };
        let ghost ys0 = ys@;
        ys.push(y);
        proof {
            assert forall|xs: Seq<NetworkInfo>|
                network_info_list_fits(xs) && (#[trigger] enc_network_info_list(xs)).is_prefix_of(
                    b@.skip(pos as int),
                ) && xs.len() == count implies (forall|j: int|
                0 <= j < i + 1 ==> network_info_eqv(#[trigger] ys@[j], xs[j])) && pnew == pos + 8
                + enc_network_info_items(xs.take(i + 1)).len() by {
                lemma_auto_spec_u64_to_from_le_bytes();
                lemma_unchain(
                    b@,
                    pos as int,
                    spec_u64_to_le_bytes(xs.len() as u64),
                    enc_network_info_items(xs),
                );
                lemma_enc_network_info_items_split(xs, i as int);
                lemma_unchain(
                    b@,
                    pos as int + 8,
                    enc_network_info_items(xs.take(i as int)),
                    enc_network_info(xs[i as int]) + enc_network_info_items(xs.skip(i + 1)),
                );
                assert(xs.take(i + 1) =~= xs.take(i as int).push(xs[i as int]));
                lemma_enc_network_info_items_push(xs.take(i as int), xs[i as int]);
                assert(enc_network_info(xs[i as int]).is_prefix_of(b@.skip(p as int)));
            }
        }
        i = i + 1;
        p = pnew;
    }
    proof {
        assert forall|xs: Seq<NetworkInfo>|
            network_info_list_fits(xs) && (#[trigger] enc_network_info_list(xs)).is_prefix_of(
                b@.skip(pos as int),
            ) implies (network_info_list_eqv(ys@, xs) && p == pos + enc_network_info_list(xs).len()) by {
            lemma_auto_spec_u64_to_from_le_bytes();
            lemma_unchain(
                b@,
                pos as int,
                spec_u64_to_le_bytes(xs.len() as u64),
                enc_network_info_items(xs),
            );
            assert(spec_u64_to_le_bytes(xs.len() as u64) =~= b@.subrange(
                pos as int,
                pos as int + 8,
            ));
            assert(xs.len() == count);
            assert(xs.take(count as int) =~= xs);
        }
    }
    Some((ys, p))
}

/// Every item is well formed and the count fits the 8-byte field.
pub open spec fn process_info_list_fits(s: Seq<ProcessInfo>) -> bool {
    s.len() <= u64::MAX && (forall|j: int| 0 <= j < s.len() ==> process_info_fits(#[trigger] s[j]))
}

/// Pointwise field-for-field equality of two listings.
pub open spec fn process_info_list_eqv(a: Seq<ProcessInfo>, b: Seq<ProcessInfo>) -> bool {
    a.len() == b.len() && (forall|j: int| 0 <= j < a.len() ==> process_info_eqv(#[trigger] a[j], b[j]))
}

/// Wire form of a list body: the items' encodings, in order.
pub open spec fn enc_process_info_items(s: Seq<ProcessInfo>) -> Seq<u8>
    decreases s.len(),
{
    if s.len() == 0 {
        Seq::empty()
    } else {
        enc_process_info(s[0]) + enc_process_info_items(s.drop_first())
    }
}

/// Wire form of a list: 8-byte count, then the items.
pub open spec fn enc_process_info_list(s: Seq<ProcessInfo>) -> Seq<u8> {
    spec_u64_to_le_bytes(s.len() as u64) + enc_process_info_items(s)
}

proof fn lemma_enc_process_info_items_push(s: Seq<ProcessInfo>, v: ProcessInfo)
    ensures
        enc_process_info_items(s.push(v)) == enc_process_info_items(s) + enc_process_info(v),
    decreases s.len(),
{
    lemma_auto_spec_u64_to_from_le_bytes();
    let t = s.push(v);
    if s.len() == 0 {
        assert(t.drop_first() =~= Seq::<ProcessInfo>::empty());
        assert(t[0] == v);
        assert(enc_process_info_items(t) == enc_process_info(v) + enc_process_info_items(Seq::<ProcessInfo>::empty()));
        assert(enc_process_info_items(t) =~= enc_process_info_items(s) + enc_process_info(v));
    } else {
        assert(t.drop_first() =~= s.drop_first().push(v));
        lemma_enc_process_info_items_push(s.drop_first(), v);
        assert(t[0] == s[0]);
        assert(enc_process_info_items(t) == enc_process_info(t[0]) + enc_process_info_items(t.drop_first()));
        assert(enc_process_info_items(s) == enc_process_info(s[0]) + enc_process_info_items(s.drop_first()));
        assert(enc_process_info_items(t) =~= enc_process_info_items(s) + enc_process_info(v));
    }
}

proof fn lemma_enc_process_info_items_len(s: Seq<ProcessInfo>)
    ensures
        enc_process_info_items(s).len() >= s.len(),
    decreases s.len(),
{
    lemma_auto_spec_u64_to_from_le_bytes();
    if s.len() > 0 {
        lemma_enc_process_info_items_len(s.drop_first());
    }
}

proof fn lemma_enc_process_info_items_split(s: Seq<ProcessInfo>, i: int)
    requires
        0 <= i < s.len(),
    ensures
        enc_process_info_items(s) == enc_process_info_items(s.take(i)) + (enc_process_info(s[i]) + enc_process_info_items(
            s.skip(i + 1),
        )),
    decreases i,
{
    lemma_auto_spec_u64_to_from_le_bytes();
    if i == 0 {
        assert(s.take(0) =~= Seq::<ProcessInfo>::empty());
        assert(s.drop_first() =~= s.skip(1));
        assert(enc_process_info_items(s) =~= enc_process_info_items(s.take(0)) + (enc_process_info(s[0]) + enc_process_info_items(
            s.skip(1),
        )));
    } else {
        lemma_enc_process_info_items_split(s.drop_first(), i - 1);
        assert(s.take(i).drop_first() =~= s.drop_first().take(i - 1));
        assert(s.skip(i + 1) =~= s.drop_first().skip(i));
        assert(enc_process_info_items(s.take(i)) == enc_process_info(s[0]) + enc_process_info_items(s.drop_first().take(
            i - 1,
        )));
        assert(enc_process_info_items(s) =~= enc_process_info_items(s.take(i)) + (enc_process_info(s[i]) + enc_process_info_items(
            s.skip(i + 1),
        )));
    }
}

/// Append the wire form of a listing.
pub fn put_process_info_list(out: &mut Vec<u8>, v: &Vec<ProcessInfo>)
    ensures
        final(out)@ == old(out)@ + enc_process_info_list(v@),
        process_info_list_fits(v@),
{
    let n: usize = v.len();
    put_u64(out, n as u64);
    let mut i: usize = 0;
    proof {
        assert(v@.take(0) =~= Seq::<ProcessInfo>::empty());
    }
    while i < n
        invariant
            i <= n,
            n == v@.len(),
            forall|j: int| 0 <= j < i ==> process_info_fits(#[trigger] v@[j]),
            out@ == old(out)@ + spec_u64_to_le_bytes(n as u64) + enc_process_info_items(v@.take(i as int)),
        decreases n - i,
    {
        encode_process_info(out, &v[i]);
        proof {
            assert(v@.take(i + 1) =~= v@.take(i as int).push(v@[i as int]));
            lemma_enc_process_info_items_push(v@.take(i as int), v@[i as int]);
        }
        i = i + 1;
    }
    proof {
        assert(v@.take(n as int) =~= v@);
        assert(out@ =~= old(out)@ + enc_process_info_list(v@));
    }
}

/// Read a listing.  Whenever the bytes at `pos` start with the encoding of
/// some listing, that listing is returned, item for item, field for field.
pub fn take_process_info_list(b: &Vec<u8>, pos: usize) -> (r: Option<(Vec<ProcessInfo>, usize)>)
    requires
        pos <= b@.len(),
    ensures
        r matches Some((v, end)) ==> pos <= end <= b@.len(),
        forall|xs: Seq<ProcessInfo>|
            process_info_list_fits(xs) && (#[trigger] enc_process_info_list(xs)).is_prefix_of(
                b@.skip(pos as int),
            ) ==> (r matches Some((ys, end)) && process_info_list_eqv(ys@, xs) && end == pos + enc_process_info_list(
                xs,
            ).len()),
{
    proof {
        lemma_auto_spec_u64_to_from_le_bytes();
    }
    let blen: usize = b.len();
    let r0 = take_u64(b, pos);
    let (count64, p0) = match r0 {
        Some(v) => v,
        None => {
            proof {
                assert forall|xs: Seq<ProcessInfo>|
                    process_info_list_fits(xs) && (#[trigger] enc_process_info_list(xs)).is_prefix_of(
                        b@.skip(pos as int),
                    ) implies false by {
                    lemma_unchain(
                        b@,
                        pos as int,
                        spec_u64_to_le_bytes(xs.len() as u64),
                        enc_process_info_items(xs),
                    );
                }
            }
            return None;
        },
    };
    if count64 > blen as u64 {
        proof {
            assert forall|xs: Seq<ProcessInfo>|
                process_info_list_fits(xs) && (#[trigger] enc_process_info_list(xs)).is_prefix_of(
                    b@.skip(pos as int),
                ) implies false by {
                lemma_unchain(
                    b@,
                    pos as int,
                    spec_u64_to_le_bytes(xs.len() as u64),
                    enc_process_info_items(xs),
                );
                lemma_enc_process_info_items_len(xs);
            }
        }
        return None;
    }
    let count: usize = count64 as usize;
    let mut ys: Vec<ProcessInfo> = Vec::new();
    let mut p: usize = p0;
    let mut i: usize = 0;
    proof {
        assert forall|xs: Seq<ProcessInfo>| true implies enc_process_info_items(xs.take(0)).len() == 0 by {
            assert(xs.take(0) =~= Seq::<ProcessInfo>::empty());
            assert(enc_process_info_items(Seq::<ProcessInfo>::empty()) =~= Seq::<u8>::empty());
        }
    }
    while i < count
        invariant
            i <= count,
            pos <= p <= b@.len(),
            p0 == pos + 8,
            pos + 8 <= b@.len(),
            count == count64,
            b@.subrange(pos as int, pos as int + 8) == spec_u64_to_le_bytes(count64),
            ys@.len() == i,
            forall|xs: Seq<ProcessInfo>|
                process_info_list_fits(xs) && (#[trigger] enc_process_info_list(xs)).is_prefix_of(
                    b@.skip(pos as int),
                ) && xs.len() == count ==> (forall|j: int|
                    0 <= j < i ==> process_info_eqv(#[trigger] ys@[j], xs[j])) && p == pos + 8
                    + enc_process_info_items(xs.take(i as int)).len(),
        decreases count - i,
    {
        let ri = decode_process_info(b, p);
        let (y, pnew) = match ri {
            Some(v) => v,
            None => {
                proof {
                    assert forall|xs: Seq<ProcessInfo>|
                        process_info_list_fits(xs) && (#[trigger] enc_process_info_list(xs)).is_prefix_of(
                            b@.skip(pos as int),
                        ) implies false by {
                        lemma_auto_spec_u64_to_from_le_bytes();
                        lemma_unchain(
                            b@,
                            pos as int,
                            spec_u64_to_le_bytes(xs.len() as u64),
                            enc_process_info_items(xs),
                        );
                        assert(spec_u64_to_le_bytes(xs.len() as u64) =~= b@.subrange(
                            pos as int,
                            pos as int + 8,
                        ));
                        assert(xs.len() == count);
                        lemma_enc_process_info_items_split(xs, i as int);
                        lemma_unchain(
                            b@,
                            pos as int + 8,
                            enc_process_info_items(xs.take(i as int)),
                            enc_process_info(xs[i as int]) + enc_process_info_items(xs.skip(i + 1)),
                        );
                        lemma_unchain(
                            b@,
                            p as int,
                            enc_process_info(xs[i as int]),
                            enc_process_info_items(xs.skip(i + 1)),
                        );
                    }
                }
                return None;
            },
        };
        let ghost ys0 = ys@;
        ys.push(y);
        proof {
            assert forall|xs: Seq<ProcessInfo>|
                process_info_list_fits(xs) && (#[trigger] enc_process_info_list(xs)).is_prefix_of(
                    b@.skip(pos as int),
                ) && xs.len() == count implies (forall|j: int|
                0 <= j < i + 1 ==> process_info_eqv(#[trigger] ys@[j], xs[j])) && pnew == pos + 8
                + enc_process_info_items(xs.take(i + 1)).len() by {
                lemma_auto_spec_u64_to_from_le_bytes();
                lemma_unchain(
                    b@,
                    pos as int,
                    spec_u64_to_le_bytes(xs.len() as u64),
                    enc_process_info_items(xs),
                );
                lemma_enc_process_info_items_split(xs, i as int);
                lemma_unchain(
                    b@,
                    pos as int + 8,
                    enc_process_info_items(xs.take(i as int)),
                    enc_process_info(xs[i as int]) + enc_process_info_items(xs.skip(i + 1)),
                );
                assert(xs.take(i + 1) =~= xs.take(i as int).push(xs[i as int]));
                lemma_enc_process_info_items_push(xs.take(i as int), xs[i as int]);
                assert(enc_process_info(xs[i as int]).is_prefix_of(b@.skip(p as int)));
            }
        }
        i = i + 1;
        p = pnew;
    }
    proof {
        assert forall|xs: Seq<ProcessInfo>|
            process_info_list_fits(xs) && (#[trigger] enc_process_info_list(xs)).is_prefix_of(
                b@.skip(pos as int),
            ) implies (process_info_list_eqv(ys@, xs) && p == pos + enc_process_info_list(xs).len()) by {
            lemma_auto_spec_u64_to_from_le_bytes();
            lemma_unchain(
                b@,
                pos as int,
                spec_u64_to_le_bytes(xs.len() as u64),
                enc_process_info_items(xs),
            );
            assert(spec_u64_to_le_bytes(xs.len() as u64) =~= b@.subrange(
                pos as int,
                pos as int + 8,
            ));
            assert(xs.len() == count);
            assert(xs.take(count as int) =~= xs);
        }
    }
    Some((ys, p))
}


/// Every variable-length field of the record is short enough to encode and
/// well formed.
pub open spec fn advanced_system_info_fits(x: AdvancedSystemInfo) -> bool {
    x.load_average@.len() <= u64::MAX
}

/// Field-for-field equality, strings and listings compared by contents.
pub open spec fn advanced_system_info_eqv(a: AdvancedSystemInfo, b: AdvancedSystemInfo) -> bool {
    &&& a.load_average@ == b.load_average@
    &&& a.process_count == b.process_count
    &&& a.total_processes == b.total_processes
    &&& a.users_count == b.users_count
}

/// Wire form of the coarse platform statistics: the load-average list, then the three counts.
pub open spec fn enc_advanced_system_info(x: AdvancedSystemInfo) -> Seq<u8> {
    enc_u64_list(x.load_average@) + (spec_u64_to_le_bytes(x.process_count as u64) + (spec_u64_to_le_bytes(x.total_processes as u64) + (spec_u64_to_le_bytes(x.users_count as u64))))
}

/// Append the wire form of the record.
pub fn encode_advanced_system_info(out: &mut Vec<u8>, x: &AdvancedSystemInfo)
    ensures
        final(out)@ == old(out)@ + enc_advanced_system_info(*x),
        advanced_system_info_fits(*x),
{
    put_u64_list(out, &x.load_average);
    put_u64(out, x.process_count as u64);
    put_u64(out, x.total_processes as u64);
    put_u64(out, x.users_count as u64);
    proof {
        assert(out@ =~= old(out)@ + enc_advanced_system_info(*x));
    }
}

proof fn lemma_advanced_system_info_peel(b: Seq<u8>, pos: int, x: AdvancedSystemInfo)
    requires
        0 <= pos <= b.len(),
        enc_advanced_system_info(x).is_prefix_of(b.skip(pos)),
    ensures
        ({
            let q1 = pos + enc_u64_list(x.load_average@).len();
            let q2 = q1 + 8;
            let q3 = q2 + 8;
            let q4 = q3 + 8;
            &&& enc_u64_list(x.load_average@).is_prefix_of(b.skip(pos))
            &&& spec_u64_to_le_bytes(x.process_count as u64).is_prefix_of(b.skip(q1))
            &&& spec_u64_to_le_bytes(x.total_processes as u64).is_prefix_of(b.skip(q2))
            &&& spec_u64_to_le_bytes(x.users_count as u64).is_prefix_of(b.skip(q3))
            &&& q4 <= b.len()
            &&& enc_advanced_system_info(x).len() == q4 - pos
        }),
{
    lemma_auto_spec_u64_to_from_le_bytes();
    let q1 = pos + enc_u64_list(x.load_average@).len();
    let q2 = q1 + 8;
    let q3 = q2 + 8;
    let q4 = q3 + 8;
    lemma_unchain(b, pos, enc_u64_list(x.load_average@), spec_u64_to_le_bytes(x.process_count as u64) + (spec_u64_to_le_bytes(x.total_processes as u64) + (spec_u64_to_le_bytes(x.users_count as u64))));
    lemma_unchain(b, q1, spec_u64_to_le_bytes(x.process_count as u64), spec_u64_to_le_bytes(x.total_processes as u64) + (spec_u64_to_le_bytes(x.users_count as u64)));
    lemma_unchain(b, q2, spec_u64_to_le_bytes(x.total_processes as u64), spec_u64_to_le_bytes(x.users_count as u64));
}

/// Parse the record.  Whenever the bytes at `pos` start with the encoding
/// of some record, that record is returned, field for field.
pub fn decode_advanced_system_info(b: &Vec<u8>, pos: usize) -> (r: Option<(AdvancedSystemInfo, usize)>)
    requires
        pos <= b@.len(),
    ensures
        r matches Some((y, end)) ==> pos <= end <= b@.len(),
        forall|x: AdvancedSystemInfo|
            advanced_system_info_fits(x) && (#[trigger] enc_advanced_system_info(x)).is_prefix_of(b@.skip(pos as int)) ==> (r matches Some((y, end)) && advanced_system_info_eqv(y, x) && end == pos + enc_advanced_system_info(x).len()),
{
    let r1 = take_u64_list(b, pos);
    let (load_average, p1) = match r1 {
        Some(v) => v,
        None => {
            proof {
                assert forall|x: AdvancedSystemInfo|
                    advanced_system_info_fits(x) && (#[trigger] enc_advanced_system_info(x)).is_prefix_of(b@.skip(pos as int)) implies false by {
                    lemma_advanced_system_info_peel(b@, pos as int, x);
                }
            }
            return None;
        },
    };
    let r2 = take_usize(b, p1);
    let (process_count, p2) = match r2 {
        Some(v) => v,
        None => {
            proof {
                assert forall|x: AdvancedSystemInfo|
                    advanced_system_info_fits(x) && (#[trigger] enc_advanced_system_info(x)).is_prefix_of(b@.skip(pos as int)) implies false by {
                    lemma_advanced_system_info_peel(b@, pos as int, x);
                }
            }
            return None;
        },
    };
    let r3 = take_usize(b, p2);
    let (total_processes, p3) = match r3 {
        Some(v) => v,
        None => {
            proof {
                assert forall|x: AdvancedSystemInfo|
                    advanced_system_info_fits(x) && (#[trigger] enc_advanced_system_info(x)).is_prefix_of(b@.skip(pos as int)) implies false by {
                    lemma_advanced_system_info_peel(b@, pos as int, x);
                }
            }
            return None;
        },
    };
    let r4 = take_usize(b, p3);
    let (users_count, p4) = match r4 {
        Some(v) => v,
        None => {
            proof {
                assert forall|x: AdvancedSystemInfo|
                    advanced_system_info_fits(x) && (#[trigger] enc_advanced_system_info(x)).is_prefix_of(b@.skip(pos as int)) implies false by {
                    lemma_advanced_system_info_peel(b@, pos as int, x);
                }
            }
            return None;
        },
    };
    let y = AdvancedSystemInfo { load_average, process_count, total_processes, users_count };
    proof {
        assert forall|x: AdvancedSystemInfo|
            advanced_system_info_fits(x) && (#[trigger] enc_advanced_system_info(x)).is_prefix_of(b@.skip(pos as int)) implies (advanced_system_info_eqv(y, x) && p4 == pos + enc_advanced_system_info(x).len()) by {
            lemma_advanced_system_info_peel(b@, pos as int, x);
        }
    }
    Some((y, p4))
}

/// Every variable-length field of the record is short enough to encode and
/// well formed.
pub open spec fn extended_realtime_stats_fits(x: ExtendedRealtimeStats) -> bool {
    temperature_info_list_fits(x.temperatures@) && network_info_list_fits(x.network_activity@) && process_info_list_fits(x.top_processes@)
}

/// Field-for-field equality, strings and listings compared by contents.
pub open spec fn extended_realtime_stats_eqv(a: ExtendedRealtimeStats, b: ExtendedRealtimeStats) -> bool {
    &&& a.cpu_usage == b.cpu_usage
    &&& a.memory_usage == b.memory_usage
    &&& a.memory_used_gb == b.memory_used_gb
    &&& a.memory_total_gb == b.memory_total_gb
    &&& temperature_info_list_eqv(a.temperatures@, b.temperatures@)
    &&& network_info_list_eqv(a.network_activity@, b.network_activity@)
    &&& process_info_list_eqv(a.top_processes@, b.top_processes@)
    &&& a.timestamp == b.timestamp
}

/// Wire form of the extended bundle: the four scalars, the three listings, then the capture timestamp.
pub open spec fn enc_extended_realtime_stats(x: ExtendedRealtimeStats) -> Seq<u8> {
    spec_u64_to_le_bytes(x.cpu_usage) + (spec_u64_to_le_bytes(x.memory_usage) + (spec_u64_to_le_bytes(x.memory_used_gb) + (spec_u64_to_le_bytes(x.memory_total_gb) + (enc_temperature_info_list(x.temperatures@) + (enc_network_info_list(x.network_activity@) + (enc_process_info_list(x.top_processes@) + (spec_u64_to_le_bytes(x.timestamp))))))))
}

/// Append the wire form of the record.
pub fn encode_extended_realtime_stats(out: &mut Vec<u8>, x: &ExtendedRealtimeStats)
    ensures
        final(out)@ == old(out)@ + enc_extended_realtime_stats(*x),
        extended_realtime_stats_fits(*x),
{
    put_u64(out, x.cpu_usage);
    put_u64(out, x.memory_usage);
    put_u64(out, x.memory_used_gb);
    put_u64(out, x.memory_total_gb);
    put_temperature_info_list(out, &x.temperatures);
    put_network_info_list(out, &x.network_activity);
    put_process_info_list(out, &x.top_processes);
    put_u64(out, x.timestamp);
    proof {
        assert(out@ =~= old(out)@ + enc_extended_realtime_stats(*x));
    }
}

proof fn lemma_extended_realtime_stats_peel(b: Seq<u8>, pos: int, x: ExtendedRealtimeStats)
    requires
        0 <= pos <= b.len(),
        enc_extended_realtime_stats(x).is_prefix_of(b.skip(pos)),
    ensures
        ({
            let q1 = pos + 8;
            let q2 = q1 + 8;
            let q3 = q2 + 8;
            let q4 = q3 + 8;
            let q5 = q4 + enc_temperature_info_list(x.temperatures@).len();
            let q6 = q5 + enc_network_info_list(x.network_activity@).len();
            let q7 = q6 + enc_process_info_list(x.top_processes@).len();
            let q8 = q7 + 8;
            &&& spec_u64_to_le_bytes(x.cpu_usage).is_prefix_of(b.skip(pos))
            &&& spec_u64_to_le_bytes(x.memory_usage).is_prefix_of(b.skip(q1))
            &&& spec_u64_to_le_bytes(x.memory_used_gb).is_prefix_of(b.skip(q2))
            &&& spec_u64_to_le_bytes(x.memory_total_gb).is_prefix_of(b.skip(q3))
            &&& enc_temperature_info_list(x.temperatures@).is_prefix_of(b.skip(q4))
            &&& enc_network_info_list(x.network_activity@).is_prefix_of(b.skip(q5))
            &&& enc_process_info_list(x.top_processes@).is_prefix_of(b.skip(q6))
            &&& spec_u64_to_le_bytes(x.timestamp).is_prefix_of(b.skip(q7))
            &&& q8 <= b.len()
            &&& enc_extended_realtime_stats(x).len() == q8 - pos
        }),
{
    lemma_auto_spec_u64_to_from_le_bytes();
    let q1 = pos + 8;
    let q2 = q1 + 8;
    let q3 = q2 + 8;
    let q4 = q3 + 8;
    let q5 = q4 + enc_temperature_info_list(x.temperatures@).len();
    let q6 = q5 + enc_network_info_list(x.network_activity@).len();
    let q7 = q6 + enc_process_info_list(x.top_processes@).len();
    let q8 = q7 + 8;
    lemma_unchain(b, pos, spec_u64_to_le_bytes(x.cpu_usage), spec_u64_to_le_bytes(x.memory_usage) + (spec_u64_to_le_bytes(x.memory_used_gb) + (spec_u64_to_le_bytes(x.memory_total_gb) + (enc_temperature_info_list(x.temperatures@) + (enc_network_info_list(x.network_activity@) + (enc_process_info_list(x.top_processes@) + (spec_u64_to_le_bytes(x.timestamp))))))));
    lemma_unchain(b, q1, spec_u64_to_le_bytes(x.memory_usage), spec_u64_to_le_bytes(x.memory_used_gb) + (spec_u64_to_le_bytes(x.memory_total_gb) + (enc_temperature_info_list(x.temperatures@) + (enc_network_info_list(x.network_activity@) + (enc_process_info_list(x.top_processes@) + (spec_u64_to_le_bytes(x.timestamp)))))));
    lemma_unchain(b, q2, spec_u64_to_le_bytes(x.memory_used_gb), spec_u64_to_le_bytes(x.memory_total_gb) + (enc_temperature_info_list(x.temperatures@) + (enc_network_info_list(x.network_activity@) + (enc_process_info_list(x.top_processes@) + (spec_u64_to_le_bytes(x.timestamp))))));
    lemma_unchain(b, q3, spec_u64_to_le_bytes(x.memory_total_gb), enc_temperature_info_list(x.temperatures@) + (enc_network_info_list(x.network_activity@) + (enc_process_info_list(x.top_processes@) + (spec_u64_to_le_bytes(x.timestamp)))));
    lemma_unchain(b, q4, enc_temperature_info_list(x.temperatures@), enc_network_info_list(x.network_activity@) + (enc_process_info_list(x.top_processes@) + (spec_u64_to_le_bytes(x.timestamp))));
    lemma_unchain(b, q5, enc_network_info_list(x.network_activity@), enc_process_info_list(x.top_processes@) + (spec_u64_to_le_bytes(x.timestamp)));
    lemma_unchain(b, q6, enc_process_info_list(x.top_processes@), spec_u64_to_le_bytes(x.timestamp));
}

/// Parse the record.  Whenever the bytes at `pos` start with the encoding
/// of some record, that record is returned, field for field.
pub fn decode_extended_realtime_stats(b: &Vec<u8>, pos: usize) -> (r: Option<(ExtendedRealtimeStats, usize)>)
    requires
        pos <= b@.len(),
    ensures
        r matches Some((y, end)) ==> pos <= end <= b@.len(),
        forall|x: ExtendedRealtimeStats|
            extended_realtime_stats_fits(x) && (#[trigger] enc_extended_realtime_stats(x)).is_prefix_of(b@.skip(pos as int)) ==> (r matches Some((y, end)) && extended_realtime_stats_eqv(y, x) && end == pos + enc_extended_realtime_stats(x).len()),
{
    let r1 = take_u64(b, pos);
    let (cpu_usage, p1) = match r1 {
        Some(v) => v,
        None => {
            proof {
                assert forall|x: ExtendedRealtimeStats|
                    extended_realtime_stats_fits(x) && (#[trigger] enc_extended_realtime_stats(x)).is_prefix_of(b@.skip(pos as int)) implies false by {
                    lemma_extended_realtime_stats_peel(b@, pos as int, x);
                }
            }
            return None;
        },
    };
    let r2 = take_u64(b, p1);
    let (memory_usage, p2) = match r2 {
        Some(v) => v,
        None => {
            proof {
                assert forall|x: ExtendedRealtimeStats|
                    extended_realtime_stats_fits(x) && (#[trigger] enc_extended_realtime_stats(x)).is_prefix_of(b@.skip(pos as int)) implies false by {
                    lemma_extended_realtime_stats_peel(b@, pos as int, x);
                }
            }
            return None;
        },
    };
    let r3 = take_u64(b, p2);
    let (memory_used_gb, p3) = match r3 {
        Some(v) => v,
        None => {
            proof {
                assert forall|x: ExtendedRealtimeStats|
                    extended_realtime_stats_fits(x) && (#[trigger] enc_extended_realtime_stats(x)).is_prefix_of(b@.skip(pos as int)) implies false by {
                    lemma_extended_realtime_stats_peel(b@, pos as int, x);
                }
            }
            return None;
        },
    };
    let r4 = take_u64(b, p3);
    let (memory_total_gb, p4) = match r4 {
        Some(v) => v,
        None => {
            proof {
                assert forall|x: ExtendedRealtimeStats|
                    extended_realtime_stats_fits(x) && (#[trigger] enc_extended_realtime_stats(x)).is_prefix_of(b@.skip(pos as int)) implies false by {
                    lemma_extended_realtime_stats_peel(b@, pos as int, x);
                }
            }
            return None;
        },
    };
    let r5 = take_temperature_info_list(b, p4);
    let (temperatures, p5) = match r5 {
        Some(v) => v,
        None => {
            proof {
                assert forall|x: ExtendedRealtimeStats|
                    extended_realtime_stats_fits(x) && (#[trigger] enc_extended_realtime_stats(x)).is_prefix_of(b@.skip(pos as int)) implies false by {
                    lemma_extended_realtime_stats_peel(b@, pos as int, x);
                }
            }
            return None;
        },
    };
    let r6 = take_network_info_list(b, p5);
    let (network_activity, p6) = match r6 {
        Some(v) => v,
        None => {
            proof {
                assert forall|x: ExtendedRealtimeStats|
                    extended_realtime_stats_fits(x) && (#[trigger] enc_extended_realtime_stats(x)).is_prefix_of(b@.skip(pos as int)) implies false by {
                    lemma_extended_realtime_stats_peel(b@, pos as int, x);
                }
            }
            return None;
        },
    };
    let r7 = take_process_info_list(b, p6);
    let (top_processes, p7) = match r7 {
        Some(v) => v,
        None => {
            proof {
                assert forall|x: ExtendedRealtimeStats|
                    extended_realtime_stats_fits(x) && (#[trigger] enc_extended_realtime_stats(x)).is_prefix_of(b@.skip(pos as int)) implies false by {
                    lemma_extended_realtime_stats_peel(b@, pos as int, x);
                }
            }
            return None;
        },
    };
    let r8 = take_u64(b, p7);
    let (timestamp, p8) = match r8 {
        Some(v) => v,
        None => {
            proof {
                assert forall|x: ExtendedRealtimeStats|
                    extended_realtime_stats_fits(x) && (#[trigger] enc_extended_realtime_stats(x)).is_prefix_of(b@.skip(pos as int)) implies false by {
                    lemma_extended_realtime_stats_peel(b@, pos as int, x);
                }
            }
            return None;
        },
    };
    let y = ExtendedRealtimeStats { cpu_usage, memory_usage, memory_used_gb, memory_total_gb, temperatures, network_activity, top_processes, timestamp };
    proof {
        assert forall|x: ExtendedRealtimeStats|
            extended_realtime_stats_fits(x) && (#[trigger] enc_extended_realtime_stats(x)).is_prefix_of(b@.skip(pos as int)) implies (extended_realtime_stats_eqv(y, x) && p8 == pos + enc_extended_realtime_stats(x).len()) by {
            lemma_extended_realtime_stats_peel(b@, pos as int, x);
        }
    }
    Some((y, p8))
}


/// Every item is well formed and the count fits the 8-byte field.
pub open spec fn disk_info_list_fits(s: Seq<DiskInfo>) -> bool {
    s.len() <= u64::MAX && (forall|j: int| 0 <= j < s.len() ==> disk_info_fits(#[trigger] s[j]))
}

/// Pointwise field-for-field equality of two listings.
pub open spec fn disk_info_list_eqv(a: Seq<DiskInfo>, b: Seq<DiskInfo>) -> bool {
    a.len() == b.len() && (forall|j: int| 0 <= j < a.len() ==> disk_info_eqv(#[trigger] a[j], b[j]))
}

/// Wire form of a list body: the items' encodings, in order.
pub open spec fn enc_disk_info_items(s: Seq<DiskInfo>) -> Seq<u8>
    decreases s.len(),
{
    if s.len() == 0 {
        Seq::empty()
    } else {
        enc_disk_info(s[0]) + enc_disk_info_items(s.drop_first())
    }
}

/// Wire form of a list: 8-byte count, then the items.
pub open spec fn enc_disk_info_list(s: Seq<DiskInfo>) -> Seq<u8> {
    spec_u64_to_le_bytes(s.len() as u64) + enc_disk_info_items(s)
}

proof fn lemma_enc_disk_info_items_push(s: Seq<DiskInfo>, v: DiskInfo)
    ensures
        enc_disk_info_items(s.push(v)) == enc_disk_info_items(s) + enc_disk_info(v),
    decreases s.len(),
{
    lemma_auto_spec_u64_to_from_le_bytes();
    let t = s.push(v);
    if s.len() == 0 {
        assert(t.drop_first() =~= Seq::<DiskInfo>::empty());
        assert(t[0] == v);
        assert(enc_disk_info_items(t) == enc_disk_info(v) + enc_disk_info_items(Seq::<DiskInfo>::empty()));
        assert(enc_disk_info_items(t) =~= enc_disk_info_items(s) + enc_disk_info(v));
    } else {
        assert(t.drop_first() =~= s.drop_first().push(v));
        lemma_enc_disk_info_items_push(s.drop_first(), v);
        assert(t[0] == s[0]);
        assert(enc_disk_info_items(t) == enc_disk_info(t[0]) + enc_disk_info_items(t.drop_first()));
        assert(enc_disk_info_items(s) == enc_disk_info(s[0]) + enc_disk_info_items(s.drop_first()));
        assert(enc_disk_info_items(t) =~= enc_disk_info_items(s) + enc_disk_info(v));
    }
}

proof fn lemma_enc_disk_info_items_len(s: Seq<DiskInfo>)
    ensures
        enc_disk_info_items(s).len() >= s.len(),
    decreases s.len(),
{
    lemma_auto_spec_u64_to_from_le_bytes();
    if s.len() > 0 {
        lemma_enc_disk_info_items_len(s.drop_first());
    }
}

proof fn lemma_enc_disk_info_items_split(s: Seq<DiskInfo>, i: int)
    requires
        0 <= i < s.len(),
    ensures
        enc_disk_info_items(s) == enc_disk_info_items(s.take(i)) + (enc_disk_info(s[i]) + enc_disk_info_items(
            s.skip(i + 1),
        )),
    decreases i,
{
    lemma_auto_spec_u64_to_from_le_bytes();
    if i == 0 {
        assert(s.take(0) =~= Seq::<DiskInfo>::empty());
        assert(s.drop_first() =~= s.skip(1));
        assert(enc_disk_info_items(s) =~= enc_disk_info_items(s.take(0)) + (enc_disk_info(s[0]) + enc_disk_info_items(
            s.skip(1),
        )));
    } else {
        lemma_enc_disk_info_items_split(s.drop_first(), i - 1);
        assert(s.take(i).drop_first() =~= s.drop_first().take(i - 1));
        assert(s.skip(i + 1) =~= s.drop_first().skip(i));
        assert(enc_disk_info_items(s.take(i)) == enc_disk_info(s[0]) + enc_disk_info_items(s.drop_first().take(
            i - 1,
        )));
        assert(enc_disk_info_items(s) =~= enc_disk_info_items(s.take(i)) + (enc_disk_info(s[i]) + enc_disk_info_items(
            s.skip(i + 1),
        )));
    }
}

/// Append the wire form of a listing.
pub fn put_disk_info_list(out: &mut Vec<u8>, v: &Vec<DiskInfo>)
    ensures
        final(out)@ == old(out)@ + enc_disk_info_list(v@),
        disk_info_list_fits(v@),
{
    let n: usize = v.len();
    put_u64(out, n as u64);
    let mut i: usize = 0;
    proof {
        assert(v@.take(0) =~= Seq::<DiskInfo>::empty());
    }
    while i < n
        invariant
            i <= n,
            n == v@.len(),
            forall|j: int| 0 <= j < i ==> disk_info_fits(#[trigger] v@[j]),
            out@ == old(out)@ + spec_u64_to_le_bytes(n as u64) + enc_disk_info_items(v@.take(i as int)),
        decreases n - i,
    {
        encode_disk_info(out, &v[i]);
        proof {
            assert(v@.take(i + 1) =~= v@.take(i as int).push(v@[i as int]));
            lemma_enc_disk_info_items_push(v@.take(i as int), v@[i as int]);
        }
        i = i + 1;
    }
    proof {
        assert(v@.take(n as int) =~= v@);
        assert(out@ =~= old(out)@ + enc_disk_info_list(v@));
    }
}

/// Read a listing.  Whenever the bytes at `pos` start with the encoding of
/// some listing, that listing is returned, item for item, field for field.
pub fn take_disk_info_list(b: &Vec<u8>, pos: usize) -> (r: Option<(Vec<DiskInfo>, usize)>)
    requires
        pos <= b@.len(),
    ensures
        r matches Some((v, end)) ==> pos <= end <= b@.len(),
        forall|xs: Seq<DiskInfo>|
            disk_info_list_fits(xs) && (#[trigger] enc_disk_info_list(xs)).is_prefix_of(
                b@.skip(pos as int),
            ) ==> (r matches Some((ys, end)) && disk_info_list_eqv(ys@, xs) && end == pos + enc_disk_info_list(
                xs,
            ).len()),
{
    proof {
        lemma_auto_spec_u64_to_from_le_bytes();
    }
    let blen: usize = b.len();
    let r0 = take_u64(b, pos);
    let (count64, p0) = match r0 {
        Some(v) => v,
        None => {
            proof {
                assert forall|xs: Seq<DiskInfo>|
                    disk_info_list_fits(xs) && (#[trigger] enc_disk_info_list(xs)).is_prefix_of(
                        b@.skip(pos as int),
                    ) implies false by {
                    lemma_unchain(
                        b@,
                        pos as int,
                        spec_u64_to_le_bytes(xs.len() as u64),
                        enc_disk_info_items(xs),
                    );
                }
            }
            return None;
        },
    };
    if count64 > blen as u64 {
        proof {
            assert forall|xs: Seq<DiskInfo>|
                disk_info_list_fits(xs) && (#[trigger] enc_disk_info_list(xs)).is_prefix_of(
                    b@.skip(pos as int),
                ) implies false by {
                lemma_unchain(
                    b@,
                    pos as int,
                    spec_u64_to_le_bytes(xs.len() as u64),
                    enc_disk_info_items(xs),
                );
                lemma_enc_disk_info_items_len(xs);
            }
        }
        return None;
    }
    let count: usize = count64 as usize;
    let mut ys: Vec<DiskInfo> = Vec::new();
    let mut p: usize = p0;
    let mut i: usize = 0;
    proof {
        assert forall|xs: Seq<DiskInfo>| true implies enc_disk_info_items(xs.take(0)).len() == 0 by {
            assert(xs.take(0) =~= Seq::<DiskInfo>::empty());
            assert(enc_disk_info_items(Seq::<DiskInfo>::empty()) =~= Seq::<u8>::empty());
        }
    }
    while i < count
        invariant
            i <= count,
            pos <= p <= b@.len(),
            p0 == pos + 8,
            pos + 8 <= b@.len(),
            count == count64,
            b@.subrange(pos as int, pos as int + 8) == spec_u64_to_le_bytes(count64),
            ys@.len() == i,
            forall|xs: Seq<DiskInfo>|
                disk_info_list_fits(xs) && (#[trigger] enc_disk_info_list(xs)).is_prefix_of(
                    b@.skip(pos as int),
                ) && xs.len() == count ==> (forall|j: int|
                    0 <= j < i ==> disk_info_eqv(#[trigger] ys@[j], xs[j])) && p == pos + 8
                    + enc_disk_info_items(xs.take(i as int)).len(),
        decreases count - i,
    {
        let ri = decode_disk_info(b, p);
        let (y, pnew) = match ri {
            Some(v) => v,
            None => {
                proof {
                    assert forall|xs: Seq<DiskInfo>|
                        disk_info_list_fits(xs) && (#[trigger] enc_disk_info_list(xs)).is_prefix_of(
                            b@.skip(pos as int),
                        ) implies false by {
                        lemma_auto_spec_u64_to_from_le_bytes();
                        lemma_unchain(
                            b@,
                            pos as int,
                            spec_u64_to_le_bytes(xs.len() as u64),
                            enc_disk_info_items(xs),
                        );
                        assert(spec_u64_to_le_bytes(xs.len() as u64) =~= b@.subrange(
                            pos as int,
                            pos as int + 8,
                        ));
                        assert(xs.len() == count);
                        lemma_enc_disk_info_items_split(xs, i as int);
                        lemma_unchain(
                            b@,
                            pos as int + 8,
                            enc_disk_info_items(xs.take(i as int)),
                            enc_disk_info(xs[i as int]) + enc_disk_info_items(xs.skip(i + 1)),
                        );
                        lemma_unchain(
                            b@,
                            p as int,
                            enc_disk_info(xs[i as int]),
                            enc_disk_info_items(xs.skip(i + 1)),
                        );
                    }
                }
                return None;
            },
        };
        let ghost ys0 = ys@;
        ys.push(y);
        proof {
            assert forall|xs: Seq<DiskInfo>|
                disk_info_list_fits(xs) && (#[trigger] enc_disk_info_list(xs)).is_prefix_of(
                    b@.skip(pos as int),
                ) && xs.len() == count implies (forall|j: int|
                0 <= j < i + 1 ==> disk_info_eqv(#[trigger] ys@[j], xs[j])) && pnew == pos + 8
                + enc_disk_info_items(xs.take(i + 1)).len() by {
                lemma_auto_spec_u64_to_from_le_bytes();
                lemma_unchain(
                    b@,
                    pos as int,
                    spec_u64_to_le_bytes(xs.len() as u64),
                    enc_disk_info_items(xs),
                );
                lemma_enc_disk_info_items_split(xs, i as int);
                lemma_unchain(
                    b@,
                    pos as int + 8,
                    enc_disk_info_items(xs.take(i as int)),
                    enc_disk_info(xs[i as int]) + enc_disk_info_items(xs.skip(i + 1)),
                );
                assert(xs.take(i + 1) =~= xs.take(i as int).push(xs[i as int]));
                lemma_enc_disk_info_items_push(xs.take(i as int), xs[i as int]);
                assert(enc_disk_info(xs[i as int]).is_prefix_of(b@.skip(p as int)));
            }
        }
        i = i + 1;
        p = pnew;
    }
    proof {
        assert forall|xs: Seq<DiskInfo>|
            disk_info_list_fits(xs) && (#[trigger] enc_disk_info_list(xs)).is_prefix_of(
                b@.skip(pos as int),
            ) implies (disk_info_list_eqv(ys@, xs) && p == pos + enc_disk_info_list(xs).len()) by {
            lemma_auto_spec_u64_to_from_le_bytes();
            lemma_unchain(
                b@,
                pos as int,
                spec_u64_to_le_bytes(xs.len() as u64),
                enc_disk_info_items(xs),
            );
            assert(spec_u64_to_le_bytes(xs.len() as u64) =~= b@.subrange(
                pos as int,
                pos as int + 8,
            ));
            assert(xs.len() == count);
            assert(xs.take(count as int) =~= xs);
        }
    }
    Some((ys, p))
}

} // verus!
