//! The CLI's vocabulary — the verbs and their arguments — and the one piece
//! of CLI logic worth proving: how a payload file is read as either one JSON
//! array or as NDJSON, one value per non-empty line. Argument parsing and
//! printing live outside the library.

use crate::json::{json_array_items, json_array_ok, json_canon, json_ok, parse_json_array};
use vstd::prelude::*;

verus! {

/// Default batch size of a poll.
pub const DEFAULT_POLL_BATCH: i64 = 1;

/// Default visibility window of a poll, in milliseconds.
pub const DEFAULT_VISIBILITY_MS: i64 = 30000;

/// Default requeue delay of a nack, in milliseconds.
pub const DEFAULT_NACK_DELAY_MS: i64 = 1000;

/// The command line: one command per invocation.
pub struct Cli {
    pub command: Commands,
}

/// The top-level verbs: run the server, manage queues, or handle messages.
pub enum Commands {
    Serve { port: u16 },
    Queue(QueueCommands),
    Message(MessageCommands),
}

/// Queue management verbs.
pub enum QueueCommands {
    List,
    Add { name: String, max_attempts: i32 },
    Remove { name: String },
    Show { name: String },
    Purge { name: String },
    Peek { name: String, limit: i64 },
    Compact { name: String },
}

/// Message handling verbs. `Enqueue` takes an inline payload, a file of
/// payloads, or both.
pub enum MessageCommands {
    Enqueue { queue: String, payload: Option<String>, file: Option<String>, delay_ms: i64 },
    Poll { queue: String, batch: i64, visibility_ms: i64 },
    Ack { ids: Vec<i64> },
    Nack { ids: Vec<i64>, delay_ms: i64 },
    Remove { id: i64 },
    Peek { queue: String, limit: u32 },
    PeekId { id: i64 },
}

// ---------------------------------------------------------------------------
// Payload files: a JSON array, or NDJSON
// ---------------------------------------------------------------------------

/// How a text splits at line breaks, as `str::lines` splits it.
pub uninterp spec fn lines_of(s: Seq<char>) -> Seq<Seq<char>>;

/// A text with its leading and trailing whitespace removed, as `str::trim`
/// removes it.
pub uninterp spec fn trim_of(s: Seq<char>) -> Seq<char>;

/// Relies on `str::lines`: how a text splits at line breaks depends on the
/// text alone.
#[verifier::external_body]
fn split_lines(s: &str) -> (r: Vec<String>)
    ensures
        r@.map_values(|t: String| t@) == lines_of(s@),
{
    s.lines().map(|l| l.to_string()).collect()
}

/// Relies on `str::trim`: the trimmed text depends on the text alone.
#[verifier::external_body]
fn trim_text(s: &str) -> (r: String)
    ensures
        r@ == trim_of(s@),
{
    s.trim().to_string()
}

/// A line carries a payload when something is left after trimming.
pub open spec fn line_kept() -> spec_fn(Seq<char>) -> bool {
    |l: Seq<char>| trim_of(l).len() > 0
}

/// The payload a carrying line denotes: its trimmed text, rendered
/// compactly.
pub open spec fn line_canon() -> spec_fn(Seq<char>) -> Seq<char> {
    |l: Seq<char>| json_canon(trim_of(l))
}

/// The texts of a vector of strings.
pub open spec fn str_views(v: Seq<String>) -> Seq<Seq<char>> {
    v.map_values(|s: String| s@)
}

/// Read a payload file: a text that parses as a JSON array yields its
/// elements; any other text is NDJSON, one JSON value per line whose trimmed
/// text is non-empty. On the first line that fails to parse, the 1-based
/// line number comes back as the error.
pub fn parse_payload_file(content: &str) -> (r: Result<Vec<String>, usize>)
    ensures
        json_array_ok(content@) ==> (r matches Ok(items) && str_views(items@) == json_array_items(
            content@,
        )),
        !json_array_ok(content@) ==> (match r {
            Ok(items) => {
                &&& forall|j: int|
                    0 <= j < lines_of(content@).len() && line_kept()(
                        #[trigger] lines_of(content@)[j],
                    ) ==> json_ok(trim_of(lines_of(content@)[j]))
                &&& str_views(items@) == lines_of(content@).filter(line_kept()).map_values(
                    line_canon(),
                )
            },
            Err(k) => {
                &&& 1 <= k <= lines_of(content@).len()
                &&& line_kept()(lines_of(content@)[k - 1])
                &&& !json_ok(trim_of(lines_of(content@)[k - 1]))
                &&& forall|j: int|
                    0 <= j < k - 1 && line_kept()(#[trigger] lines_of(content@)[j]) ==> json_ok(
                        trim_of(lines_of(content@)[j]),
                    )
            },
        }),
{
    if let Some(items) = parse_json_array(content) {
        return Ok(items);
    }
    let lines = split_lines(content);
    let ghost ls = lines_of(content@);
    let mut out: Vec<String> = Vec::new();
    let mut i: usize = 0;
    while i < lines.len()
        invariant
            !json_array_ok(content@),
            ls == lines_of(content@),
            lines@.map_values(|t: String| t@) == ls,
            0 <= i <= lines@.len(),
            str_views(out@) == ls.subrange(0, i as int).filter(line_kept()).map_values(
                line_canon(),
            ),
            forall|j: int|
                0 <= j < i && line_kept()(#[trigger] ls[j]) ==> json_ok(trim_of(ls[j])),
        decreases lines@.len() - i,
    {
        let ghost prefix = ls.subrange(0, i as int);
        let ghost cur = ls[i as int];
        proof {
            assert(cur == lines@[i as int]@);
            assert(ls.subrange(0, i + 1 as int) =~= prefix.push(cur));
            prefix.lemma_filter_push(cur, line_kept());
        }
        let t = trim_text(lines[i].as_str());
        if !t.as_str().is_empty() {
            match crate::json::canonical_json(t.as_str()) {
                Some(c) => {
                    proof {
                        assert(line_kept()(cur));
                        assert(c@ == line_canon()(cur));
                        assert(str_views(out@.push(c)) =~= str_views(out@).push(c@));
                        assert(prefix.push(cur).filter(line_kept()).map_values(line_canon())
                            =~= prefix.filter(line_kept()).map_values(line_canon()).push(
                            line_canon()(cur),
                        ));
                    }
                    out.push(c);
                },
                None => {
                    proof {
                        assert(ls[i as int] == cur);
                        assert(line_kept()(cur));
                        assert(!json_ok(trim_of(cur)));
                    }
                    return Err(i + 1);
                },
            }
        } else {
            proof {
                assert(!line_kept()(cur));
            }
        }
        i += 1;
    }
    proof {
        assert(ls.subrange(0, ls.len() as int) =~= ls);
    }
    Ok(out)
}

} // verus!
