//! Names for temp files.
//!
//! Nothing writes a file that another run might read by writing it in place: a
//! temp file is written, synced, and renamed. Its name holds the process, a
//! count within the process, and the time, so that it is unique across
//! concurrent processes sharing one cache, without a random-number dependency.

use vstd::prelude::*;
use crate::text;

verus! {

/// The name of a temp file.
pub open spec fn temp_name(prefix: Seq<char>, process: nat, count: nat, nanos: nat) -> Seq<char> {
    prefix + "-"@ + text::decimal(process) + "-"@ + text::decimal(count) + "-"@ + text::decimal(
        nanos,
    ) + ".tmp"@
}

/// The name of a temp file of a process, given how many it named before and the
/// nanoseconds of the current second.
pub fn unique_name(prefix: &str, process: u32, count: u64, nanos: u32) -> (r: String)
    ensures
        r@ == temp_name(prefix@, process as nat, count as nat, nanos as nat),
{
    let mut out = text::chars_of(prefix);
    text::append_str(&mut out, "-");
    text::append(&mut out, &text::render_decimal(process as u64));
    text::append_str(&mut out, "-");
    text::append(&mut out, &text::render_decimal(count));
    text::append_str(&mut out, "-");
    text::append(&mut out, &text::render_decimal(nanos as u64));
    text::append_str(&mut out, ".tmp");
    text::string_of(&out)
}

/// Two processes, or two counts of one process, never give one name.
pub proof fn temp_names_do_not_repeat(
    prefix: Seq<char>,
    process: nat,
    count: nat,
    nanos: nat,
    other_process: nat,
    other_count: nat,
    other_nanos: nat,
)
    requires
        temp_name(prefix, process, count, nanos) == temp_name(
            prefix,
            other_process,
            other_count,
            other_nanos,
        ),
    ensures
        process == other_process,
        count == other_count,
{
    reveal_strlit("-");
    reveal_strlit(".tmp");
    let a = rest_of(process, count, nanos);
    let b = rest_of(other_process, other_count, other_nanos);
    lemma_rest(prefix, process, count, nanos);
    lemma_rest(prefix, other_process, other_count, other_nanos);
    let whole = temp_name(prefix, process, count, nanos);
    assert(whole.skip(prefix.len() as int + 1) =~= a);
    assert(whole.skip(prefix.len() as int + 1) =~= b);
    text::lemma_decimal(process);
    text::lemma_decimal(other_process);
    text::lemma_decimal(count);
    text::lemma_decimal(other_count);
    let a1 = text::decimal(count) + (seq!['-'] + (text::decimal(nanos) + ".tmp"@));
    let b1 = text::decimal(other_count) + (seq!['-'] + (text::decimal(other_nanos) + ".tmp"@));
    lemma_no_dash(process);
    lemma_no_dash(other_process);
    lemma_no_dash(count);
    lemma_no_dash(other_count);
    text::lemma_halves(text::decimal(process), a1, '-');
    text::lemma_halves(text::decimal(other_process), b1, '-');
    text::lemma_halves(text::decimal(count), text::decimal(nanos) + ".tmp"@, '-');
    text::lemma_halves(text::decimal(other_count), text::decimal(other_nanos) + ".tmp"@, '-');
    assert(text::decimal(process) == text::decimal(other_process));
    assert(a1 == b1);
    assert(text::decimal(count) == text::decimal(other_count));
}

/// A temp name behind its prefix.
spec fn rest_of(process: nat, count: nat, nanos: nat) -> Seq<char> {
    text::decimal(process) + (seq!['-'] + (text::decimal(count) + (seq!['-'] + (text::decimal(
        nanos,
    ) + ".tmp"@))))
}

proof fn lemma_rest(prefix: Seq<char>, process: nat, count: nat, nanos: nat)
    ensures
        temp_name(prefix, process, count, nanos) == prefix + (seq!['-'] + rest_of(
            process,
            count,
            nanos,
        )),
{
    reveal_strlit("-");
    assert("-"@ =~= seq!['-']);
    assert(temp_name(prefix, process, count, nanos) =~= prefix + (seq!['-'] + rest_of(
        process,
        count,
        nanos,
    )));
}

proof fn lemma_no_dash(n: nat)
    ensures
        !text::decimal(n).contains('-'),
{
    text::lemma_decimal(n);
    let s = text::decimal(n);
    if s.contains('-') {
        let k = choose|k: int| 0 <= k < s.len() && s[k] == '-';
        assert(text::is_digit(s[k]));
    }
}

} // verus!
