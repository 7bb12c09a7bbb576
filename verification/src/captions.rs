//! Caption files: WebVTT and SubRip rendering of cues whose times are
//! given as whole seconds and milliseconds.

use vstd::prelude::*;
use crate::numtext::{radix_digits, radix_text, zero_pad};
use crate::text::push_char;

verus! {

/// `n` in decimal, zero-padded to at least `width` digits.
pub open spec fn padded(n: nat, width: nat) -> Seq<char> {
    zero_pad(radix_text(n, 10), width)
}

/// A cue time `HH:MM:SS<sep>mmm` of `total` seconds and `ms` milliseconds.
pub open spec fn cue_time_text(total: nat, ms: nat, sep: char) -> Seq<char> {
    padded(total / 3600, 2) + seq![':'] + padded((total % 3600) / 60, 2) + seq![':'] + padded(
        total % 60,
        2,
    ) + seq![sep] + padded(ms, 3)
}

/// Appends `n` in decimal, zero-padded to at least `width` digits.
fn push_padded(s: &mut String, n: u64, width: usize)
    ensures
        final(s)@ == old(s)@ + padded(n as nat, width as nat),
{
    let d = radix_digits(n, 10);
    let ghost start = s@;
    let mut k: usize = d.len();
    while k < width
        invariant
            d.len() <= k <= width || (k == d.len() && d.len() >= width),
            s@ == start + Seq::new((k - d.len()) as nat, |i: int| '0'),
        decreases width - k,
    {
        push_char(s, '0');
        k = k + 1;
        assert(s@ =~= start + Seq::new((k - d.len()) as nat, |i: int| '0'));
    }
    let ghost mid = s@;
    let mut i: usize = 0;
    while i < d.len()
        invariant
            i <= d.len(),
            s@ == mid + d@.take(i as int),
        decreases d.len() - i,
    {
        push_char(s, d[i]);
        i = i + 1;
        assert(s@ =~= mid + d@.take(i as int));
    }
    assert(d@.take(d.len() as int) =~= d@);
    proof {
        if d@.len() >= width {
            assert(Seq::new(0, |i: int| '0') + d@ =~= d@);
        }
    }
    assert(s@ =~= start + padded(n as nat, width as nat));
}

/// Appends a cue time `HH:MM:SS<sep>mmm`.
pub fn push_cue_time(s: &mut String, total: u32, ms: u32, sep: char)
    ensures
        final(s)@ == old(s)@ + cue_time_text(total as nat, ms as nat, sep),
{
    let ghost start = s@;
    push_padded(s, (total / 3600) as u64, 2);
    push_char(s, ':');
    push_padded(s, ((total % 3600) / 60) as u64, 2);
    push_char(s, ':');
    push_padded(s, (total % 60) as u64, 2);
    push_char(s, sep);
    push_padded(s, ms as u64, 3);
    assert(s@ =~= start + cue_time_text(total as nat, ms as nat, sep));
}

/// A caption cue with times in whole seconds and milliseconds.
#[derive(Debug, Clone)]
pub struct Cue {
    pub start_secs: u32,
    pub start_ms: u32,
    pub end_secs: u32,
    pub end_ms: u32,
    pub text: String,
    pub speaker: Option<String>,
}

/// The timing line of a cue.
pub open spec fn timing_line(c: Cue, sep: char) -> Seq<char> {
    cue_time_text(c.start_secs as nat, c.start_ms as nat, sep) + " --> "@ + cue_time_text(
        c.end_secs as nat,
        c.end_ms as nat,
        sep,
    ) + seq!['\n']
}

/// A WebVTT cue block, numbered `n`.
pub open spec fn vtt_block(c: Cue, n: nat) -> Seq<char> {
    radix_text(n, 10) + seq!['\n'] + timing_line(c, '.') + match c.speaker {
        Some(sp) => "<v "@ + sp@ + seq!['>'] + c.text@ + "</v>"@ + seq!['\n', '\n'],
        None => c.text@ + seq!['\n', '\n'],
    }
}

/// A SubRip cue block, numbered `n`.
pub open spec fn srt_block(c: Cue, n: nat) -> Seq<char> {
    radix_text(n, 10) + seq!['\n'] + timing_line(c, ',') + match c.speaker {
        Some(sp) => sp@ + ": "@ + c.text@ + seq!['\n', '\n'],
        None => c.text@ + seq!['\n', '\n'],
    }
}

/// The blocks of the first `k` cues, numbered from one.
pub open spec fn vtt_blocks(cues: Seq<Cue>, k: nat) -> Seq<char>
    decreases k,
{
    if k == 0 {
        Seq::empty()
    } else {
        vtt_blocks(cues, (k - 1) as nat) + vtt_block(cues[k - 1], k)
    }
}

/// The blocks of the first `k` cues, numbered from one.
pub open spec fn srt_blocks(cues: Seq<Cue>, k: nat) -> Seq<char>
    decreases k,
{
    if k == 0 {
        Seq::empty()
    } else {
        srt_blocks(cues, (k - 1) as nat) + srt_block(cues[k - 1], k)
    }
}

fn push_timing(s: &mut String, c: &Cue, sep: char)
    ensures
        final(s)@ == old(s)@ + timing_line(*c, sep),
{
    let ghost start = s@;
    push_cue_time(s, c.start_secs, c.start_ms, sep);
    s.append(" --> ");
    push_cue_time(s, c.end_secs, c.end_ms, sep);
    push_char(s, '\n');
    assert(s@ =~= start + timing_line(*c, sep));
}

fn push_number_line(s: &mut String, n: usize)
    ensures
        final(s)@ == old(s)@ + radix_text(n as nat, 10) + seq!['\n'],
{
    crate::numtext::push_uint(s, n as u64);
    push_char(s, '\n');
}

fn push_vtt_block(s: &mut String, c: &Cue, n: usize)
    ensures
        final(s)@ == old(s)@ + vtt_block(*c, n as nat),
{
    let ghost before = s@;
    push_number_line(s, n);
    push_timing(s, c, '.');
    match &c.speaker {
        Some(sp) => {
            s.append("<v ");
            s.append(sp.as_str());
            push_char(s, '>');
            s.append(c.text.as_str());
            s.append("</v>");
            push_char(s, '\n');
            push_char(s, '\n');
        },
        None => {
            s.append(c.text.as_str());
            push_char(s, '\n');
            push_char(s, '\n');
        },
    }
    assert(s@ =~= before + vtt_block(*c, n as nat));
}

fn push_srt_block(s: &mut String, c: &Cue, n: usize)
    ensures
        final(s)@ == old(s)@ + srt_block(*c, n as nat),
{
    let ghost before = s@;
    push_number_line(s, n);
    push_timing(s, c, ',');
    match &c.speaker {
        Some(sp) => {
            s.append(sp.as_str());
            s.append(": ");
            s.append(c.text.as_str());
            push_char(s, '\n');
            push_char(s, '\n');
        },
        None => {
            s.append(c.text.as_str());
            push_char(s, '\n');
            push_char(s, '\n');
        },
    }
    assert(s@ =~= before + srt_block(*c, n as nat));
}

/// Renders WebVTT: the header, then each cue numbered from one, with a
/// voice tag for its speaker.
pub fn render_vtt(cues: &[Cue]) -> (s: String)
    ensures
        s@ == "WEBVTT\n\n"@ + vtt_blocks(cues@, cues@.len()),
{
    let mut s = String::from_str("WEBVTT\n\n");
    let ghost head = s@;
    let mut i: usize = 0;
    while i < cues.len()
        invariant
            i <= cues@.len(),
            s@ == head + vtt_blocks(cues@, i as nat),
        decreases cues.len() - i,
    {
        push_vtt_block(&mut s, &cues[i], i + 1);
        i = i + 1;
        assert(s@ =~= head + vtt_blocks(cues@, i as nat));
    }
    s
}

/// Renders SubRip: each cue numbered from one, its speaker before its text.
pub fn render_srt(cues: &[Cue]) -> (s: String)
    ensures
        s@ == srt_blocks(cues@, cues@.len()),
{
    let mut s = String::new();
    let mut i: usize = 0;
    while i < cues.len()
        invariant
            i <= cues@.len(),
            s@ == srt_blocks(cues@, i as nat),
        decreases cues.len() - i,
    {
        push_srt_block(&mut s, &cues[i], i + 1);
        i = i + 1;
        assert(s@ =~= srt_blocks(cues@, i as nat));
    }
    s
}

} // verus!
