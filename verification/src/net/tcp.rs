//! TCP options.

use vstd::prelude::*;
use crate::bytes;
use crate::bytes::{be16, be32};
use crate::net::types;
use crate::net::types::{DropReason, NetStackTcpOptions, TcpOptionsModel, empty_tcp_options};

verus! {

/// Whether the option of `len` bytes at `at` may follow the options `seen`: a
/// known kind has its length and comes at most once, and a segment size is
/// not zero.
pub open spec fn option_allowed(
    s: Seq<u8>,
    at: int,
    len: int,
    seen: TcpOptionsModel,
    sack_seen: bool,
) -> bool {
    let kind = s[at];
    if kind == 2 {
        len == 4 && !seen.has_mss && bytes::be16_at(s, at + 2) != 0
    } else if kind == 3 {
        len == 3 && !seen.has_window_scale
    } else if kind == 4 {
        len == 2 && !seen.sack_permitted
    } else if kind == 5 {
        !sack_seen && 10 <= len <= 34 && (len - 2) % 8 == 0
    } else if kind == 8 {
        len == 10 && !seen.has_timestamp
    } else {
        true
    }
}

/// The first `count` of the four 32-bit numbers that stand 8 bytes apart from
/// `at` on, over `old`.
pub open spec fn sack_edges(s: Seq<u8>, at: int, count: int, old: Seq<u32>) -> Seq<u32> {
    Seq::new(
        4,
        |i: int|
            if i < count {
                bytes::be32_at(s, at + 8 * i)
            } else {
                old[i]
            },
    )
}

/// What the options are once the option at `at` was taken in.
pub open spec fn with_option(s: Seq<u8>, at: int, len: int, seen: TcpOptionsModel) -> TcpOptionsModel {
    let kind = s[at];
    if kind == 2 {
        TcpOptionsModel {
            has_mss: true,
            maximum_segment_size: bytes::be16_at(s, at + 2),
            ..seen
        }
    } else if kind == 3 {
        TcpOptionsModel {
            has_window_scale: true,
            window_scale: if s[at + 2] < 14 {
                s[at + 2]
            } else {
                14
            },
            ..seen
        }
    } else if kind == 4 {
        TcpOptionsModel { sack_permitted: true, ..seen }
    } else if kind == 5 {
        let count = (len - 2) / 8;
        TcpOptionsModel {
            sack_left: sack_edges(s, at + 2, count, seen.sack_left),
            sack_right: sack_edges(s, at + 6, count, seen.sack_right),
            sack_count: (seen.sack_count + count) as u8,
            ..seen
        }
    } else if kind == 8 {
        TcpOptionsModel {
            has_timestamp: true,
            timestamp_value: bytes::be32_at(s, at + 2),
            timestamp_echo_reply: bytes::be32_at(s, at + 6),
            ..seen
        }
    } else {
        seen
    }
}

/// The options in `s` from `at` up to `end`, behind the options `seen`: each
/// one is a pad byte, or a kind, a length and the rest of that many bytes. A
/// zero byte ends the list, and only zeros may follow it.
pub open spec fn options_from(
    s: Seq<u8>,
    at: int,
    end: int,
    seen: TcpOptionsModel,
    sack_seen: bool,
) -> Result<TcpOptionsModel, DropReason>
    decreases end - at,
{
    if at >= end {
        Ok(seen)
    } else if s[at] == 0 {
        if forall|i: int| at <= i < end ==> #[trigger] s[i] == 0 {
            Ok(seen)
        } else {
            Err(DropReason::MalformedTcp)
        }
    } else if s[at] == 1 {
        options_from(s, at + 1, end, seen, sack_seen)
    } else if at + 2 > end || s[at + 1] < 2 || at + s[at + 1] > end || !option_allowed(
        s,
        at,
        s[at + 1] as int,
        seen,
        sack_seen,
    ) {
        Err(DropReason::MalformedTcp)
    } else {
        options_from(
            s,
            at + s[at + 1],
            end,
            with_option(s, at, s[at + 1] as int, seen),
            sack_seen || s[at] == 5,
        )
    }
}

/// The options of a segment whose header of `header_len` bytes has its options
/// at `offset`.
pub open spec fn tcp_options_of(frame: Seq<u8>, offset: int, header_len: int) -> Result<
    TcpOptionsModel,
    DropReason,
> {
    let end = offset + header_len - 20;
    if end > frame.len() {
        Err(DropReason::MalformedTcp)
    } else {
        options_from(frame, offset, end, types::tcp_options_blank(), false)
    }
}

/// Reads the edges of the selective acknowledgement blocks.
fn read_sack(frame: &[u8], at: usize, count: usize, parsed: &mut NetStackTcpOptions)
    requires
        count <= 4,
        at + 8 * count <= frame.len(),
        old(parsed).sack_count == 0,
    ensures
        final(parsed)@ == (TcpOptionsModel {
            sack_left: sack_edges(frame@, at as int, count as int, old(parsed)@.sack_left),
            sack_right: sack_edges(frame@, at + 4, count as int, old(parsed)@.sack_right),
            sack_count: count as u8,
            ..old(parsed)@
        }),
{
    let ghost before = parsed@;
    assert(before.sack_left =~= sack_edges(frame@, at as int, 0, before.sack_left));
    assert(before.sack_right =~= sack_edges(frame@, at + 4, 0, before.sack_right));
    let mut i: usize = 0;
    while i < count
        invariant
            i <= count <= 4,
            at + 8 * count <= frame.len(),
            parsed@ == (TcpOptionsModel {
                sack_left: sack_edges(frame@, at as int, i as int, before.sack_left),
                sack_right: sack_edges(frame@, at + 4, i as int, before.sack_right),
                sack_count: i as u8,
                ..before
            }),
            before.sack_left.len() == 4,
            before.sack_right.len() == 4,
        decreases count - i,
    {
        parsed.sack_left[i] = be32(frame, at + 8 * i);
        parsed.sack_right[i] = be32(frame, at + 8 * i + 4);
        parsed.sack_count = parsed.sack_count + 1;
        i += 1;
        assert(parsed@.sack_left =~= sack_edges(frame@, at as int, i as int, before.sack_left));
        assert(parsed@.sack_right =~= sack_edges(frame@, at + 4, i as int, before.sack_right));
    }
}

/// Parses the options of a TCP header.
pub fn parse_tcp_options(frame: &[u8], offset: usize, header_len: usize) -> (result: Result<
    NetStackTcpOptions,
    DropReason,
>)
    requires
        20 <= header_len <= 60,
        offset + 40 <= usize::MAX,
    ensures
        match result {
            Ok(options) => tcp_options_of(frame@, offset as int, header_len as int) == Ok::<
                TcpOptionsModel,
                DropReason,
            >(options@),
            Err(reason) => tcp_options_of(frame@, offset as int, header_len as int) == Err::<
                TcpOptionsModel,
                DropReason,
            >(reason),
        },
{
    let end: usize = offset + (header_len - 20);
    if frame.len() < end {
        return Err(DropReason::MalformedTcp);
    }
    let mut parsed = empty_tcp_options();
    let mut sack_seen = false;
    let mut at: usize = offset;
    while at < end
        invariant
            at <= end <= frame.len(),
            !sack_seen ==> parsed.sack_count == 0,
            options_from(frame@, at as int, end as int, parsed@, sack_seen) == options_from(
                frame@,
                offset as int,
                end as int,
                types::tcp_options_blank(),
                false,
            ),
            options_from(
                frame@,
                offset as int,
                end as int,
                types::tcp_options_blank(),
                false,
            ) == tcp_options_of(frame@, offset as int, header_len as int),
        decreases end - at,
    {
        let kind: u8 = frame[at];
        if kind == 0 {
            let mut i: usize = at;
            while i < end
                invariant
                    at <= i <= end <= frame.len(),
                    at < end,
                    frame@[at as int] == 0,
                    forall|j: int| at <= j < i ==> #[trigger] frame@[j] == 0,
                    options_from(frame@, at as int, end as int, parsed@, sack_seen)
                        == tcp_options_of(frame@, offset as int, header_len as int),
                decreases end - i,
            {
                if frame[i] != 0 {
                    return Err(DropReason::MalformedTcp);
                }
                i += 1;
            }
            return Ok(parsed);
        }
        if kind == 1 {
            at += 1;
            continue ;
        }
        if end - at < 2 {
            return Err(DropReason::MalformedTcp);
        }
        let len: usize = frame[at + 1] as usize;
        if len < 2 || len > end - at {
            return Err(DropReason::MalformedTcp);
        }
        let ghost seen = parsed@;
        let ghost sack_before = sack_seen;
        if kind == 2 {
            if len != 4 || parsed.has_mss {
                return Err(DropReason::MalformedTcp);
            }
            let mss: u16 = be16(frame, at + 2);
            if mss == 0 {
                return Err(DropReason::MalformedTcp);
            }
            parsed.has_mss = true;
            parsed.maximum_segment_size = mss;
        } else if kind == 3 {
            if len != 3 || parsed.has_window_scale {
                return Err(DropReason::MalformedTcp);
            }
            parsed.has_window_scale = true;
            parsed.window_scale = if frame[at + 2] < 14 {
                frame[at + 2]
            } else {
                14
            };
        } else if kind == 4 {
            if len != 2 || parsed.sack_permitted {
                return Err(DropReason::MalformedTcp);
            }
            parsed.sack_permitted = true;
        } else if kind == 5 {
            if sack_seen || len < 10 || len > 34 || (len - 2) % 8 != 0 {
                return Err(DropReason::MalformedTcp);
            }
            sack_seen = true;
            read_sack(frame, at + 2, (len - 2) / 8, &mut parsed);
        } else if kind == 8 {
            if len != 10 || parsed.has_timestamp {
                return Err(DropReason::MalformedTcp);
            }
            parsed.has_timestamp = true;
            parsed.timestamp_value = be32(frame, at + 2);
            parsed.timestamp_echo_reply = be32(frame, at + 6);
        }
        assert(parsed@ == with_option(frame@, at as int, len as int, seen));
        at += len;
    }
    Ok(parsed)
}

/// Options that parse have at most four acknowledgement blocks, a scale of at
/// most 14, and a segment size that is not zero where one is given.
pub proof fn parsed_options_are_sane(
    s: Seq<u8>,
    at: int,
    end: int,
    seen: TcpOptionsModel,
    sack_seen: bool,
)
    requires
        seen.sack_count <= 4,
        !sack_seen ==> seen.sack_count == 0,
        seen.window_scale <= 14,
        seen.has_mss ==> seen.maximum_segment_size != 0,
    ensures
        options_from(s, at, end, seen, sack_seen) matches Ok(options) ==> {
            &&& options.sack_count <= 4
            &&& options.window_scale <= 14
            &&& options.has_mss ==> options.maximum_segment_size != 0
        },
    decreases end - at,
{
    if at < end && s[at] != 0 {
        if s[at] == 1 {
            parsed_options_are_sane(s, at + 1, end, seen, sack_seen);
        } else if at + 2 <= end && s[at + 1] >= 2 && at + s[at + 1] <= end && option_allowed(
            s,
            at,
            s[at + 1] as int,
            seen,
            sack_seen,
        ) {
            parsed_options_are_sane(
                s,
                at + s[at + 1],
                end,
                with_option(s, at, s[at + 1] as int, seen),
                sack_seen || s[at] == 5,
            );
        }
    }
}

} // verus!
