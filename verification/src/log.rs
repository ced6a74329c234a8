//! The built-in log: the latest messages, kept in a `heapless::Vec` of at
//! most a hundred entries, and the page that shows them at `/logs`.
use vstd::prelude::*;
use vstd::utf8::encode_utf8;

use crate::response::Response;

verus! {

#[verifier::external_type_specification]
#[verifier::external_body]
#[verifier::reject_recursive_types(T)]
pub struct ExHeaplessVec<T, const N: usize>(heapless::Vec<T, N>);

/// How many messages the log keeps.
pub const MAX_LOGS: usize = 100;

/// The messages that a log vector holds, oldest first.
pub uninterp spec fn log_entries(v: heapless::Vec<String, 100>) -> Seq<Seq<char>>;

/// An empty log vector (`heapless::Vec::new`).
#[verifier::external_body]
fn entries_new() -> (r: heapless::Vec<String, 100>)
    ensures
        log_entries(r) == Seq::<Seq<char>>::empty(),
{
    heapless::Vec::new()
}

/// How many messages the vector holds (`heapless::Vec::len`); never more than its
/// capacity of a hundred.
#[verifier::external_body]
fn entries_len(v: &heapless::Vec<String, 100>) -> (r: usize)
    ensures
        r == log_entries(*v).len(),
        r <= 100,
{
    v.len()
}

/// The message at `i` (indexing through `Deref` to a slice).
#[verifier::external_body]
fn entries_get(v: &heapless::Vec<String, 100>, i: usize) -> (r: &String)
    requires
        i < log_entries(*v).len(),
    ensures
        r@ == log_entries(*v)[i as int],
{
    &v[i]
}

/// Removes and returns the message at `i`, the later ones moving up
/// (`heapless::Vec::remove`, which panics where `i` is out of bounds).
#[verifier::external_body]
fn entries_remove(v: &mut heapless::Vec<String, 100>, i: usize) -> (r: String)
    requires
        i < log_entries(*old(v)).len(),
    ensures
        r@ == log_entries(*old(v))[i as int],
        log_entries(*final(v)) == log_entries(*old(v)).remove(i as int),
{
    v.remove(i)
}

/// Appends `msg` where there is room (`heapless::Vec::push`); a full vector hands the
/// message back unchanged.
#[verifier::external_body]
fn entries_push(v: &mut heapless::Vec<String, 100>, msg: String) -> (r: Result<(), String>)
    ensures
        log_entries(*old(v)).len() < 100 ==> (r is Ok && log_entries(*final(v)) == log_entries(
            *old(v),
        ).push(msg@)),
        log_entries(*old(v)).len() >= 100 ==> (r matches Err(m) && m@ == msg@ && log_entries(
            *final(v),
        ) == log_entries(*old(v))),
{
    v.push(msg)
}

/// The log after `msg` is recorded into `entries`: at a hundred messages the oldest
/// gives way.
pub open spec fn record(entries: Seq<Seq<char>>, msg: Seq<char>) -> Seq<Seq<char>> {
    if entries.len() >= 100 {
        entries.drop_first().push(msg)
    } else {
        entries.push(msg)
    }
}

/// The log after recording `msgs` in order, starting from `start`.
pub open spec fn record_all(start: Seq<Seq<char>>, msgs: Seq<Seq<char>>) -> Seq<Seq<char>>
    decreases msgs.len(),
{
    if msgs.len() == 0 {
        start
    } else {
        record(record_all(start, msgs.drop_last()), msgs.last())
    }
}

/// The lines of the log page's body: each message followed by a newline.
pub open spec fn log_lines(entries: Seq<Seq<char>>) -> Seq<char>
    decreases entries.len(),
{
    if entries.len() == 0 {
        Seq::empty()
    } else {
        log_lines(entries.drop_last()) + entries.last() + "\n"@
    }
}

/// The head of the log page, up to where the messages begin.
pub open spec fn page_head() -> Seq<char> {
    "<html><head><meta http-equiv='refresh' content='2'><title>Logs</title></head><body><pre>"@
}

/// The end of the log page, after the messages.
pub open spec fn page_tail() -> Seq<char> {
    "</pre></body></html>"@
}

/// The page shown when nothing has been logged.
pub open spec fn empty_page() -> Seq<char> {
    "<html><head><meta http-equiv='refresh' content='2'><title>Logs</title></head><body><pre>No logs yet. Use tinyapi::log!() to record events.</pre></body></html>"@
}

/// The latest log messages, oldest first.
pub struct LogBuffer {
    entries: heapless::Vec<String, 100>,
}

impl LogBuffer {
    /// The messages held, oldest first.
    pub closed spec fn messages(&self) -> Seq<Seq<char>> {
        log_entries(self.entries)
    }

    /// An empty log.
    pub fn new() -> (r: LogBuffer)
        ensures
            r.messages() == Seq::<Seq<char>>::empty(),
    {
        LogBuffer { entries: entries_new() }
    }

    /// How many messages the log holds.
    pub fn len(&self) -> (r: usize)
        ensures
            r == self.messages().len(),
            r <= MAX_LOGS,
    {
        entries_len(&self.entries)
    }

    /// Records `msg`; when a hundred messages are held, the oldest is dropped first.
    pub fn push(&mut self, msg: String)
        ensures
            final(self).messages() == record(old(self).messages(), msg@),
    {
        if entries_len(&self.entries) == MAX_LOGS {
            let _ = entries_remove(&mut self.entries, 0);
            assert(log_entries(self.entries) =~= old(self).messages().drop_first());
        }
        let _ = entries_push(&mut self.entries, msg);
    }

    /// The log page: every message on a line of its own, oldest first.
    pub fn html(&self) -> (r: String)
        ensures
            r@ == page_head() + log_lines(self.messages()) + page_tail(),
    {
        let n = entries_len(&self.entries);
        let mut html = String::from_str(
            "<html><head><meta http-equiv='refresh' content='2'><title>Logs</title></head><body><pre>",
        );
        let mut i: usize = 0;
        while i < n
            invariant
                n == self.messages().len(),
                i <= n,
                html@ == page_head() + log_lines(self.messages().take(i as int)),
            decreases n - i,
        {
            let entry = entries_get(&self.entries, i);
            html.append(entry.as_str());
            html.append("\n");
            assert(self.messages().take(i + 1).drop_last() =~= self.messages().take(i as int));
            assert(html@ =~= page_head() + log_lines(self.messages().take(i + 1)));
            i = i + 1;
        }
        assert(self.messages().take(n as int) =~= self.messages());
        html.append("</pre></body></html>");
        html
    }

    /// The answer at `/logs`: the log page, or a page saying nothing was logged yet.
    pub fn logs_response(&self) -> (r: Response)
        ensures
            r.status@ == "200 OK"@,
            r.content_type@ == "text/html; charset=utf-8"@,
            self.messages().len() == 0 ==> r.body@ == encode_utf8(empty_page()),
            self.messages().len() > 0 ==> r.body@ == encode_utf8(
                page_head() + log_lines(self.messages()) + page_tail(),
            ),
    {
        if entries_len(&self.entries) == 0 {
            return Response::html(
                "<html><head><meta http-equiv='refresh' content='2'><title>Logs</title></head><body><pre>No logs yet. Use tinyapi::log!() to record events.</pre></body></html>",
            );
        }
        let body = self.html();
        Response::html(body.as_str())
    }
}

/// Recording keeps the latest hundred messages: after messages are recorded into an
/// empty log, it holds the last hundred of them (all of them where there are fewer),
/// oldest first.
pub proof fn law_log_keeps_latest(msgs: Seq<Seq<char>>)
    ensures
        record_all(Seq::empty(), msgs) == msgs.skip(
            if msgs.len() > 100 {
                msgs.len() - 100
            } else {
                0
            },
        ),
    decreases msgs.len(),
{
    if msgs.len() > 0 {
        let front = msgs.drop_last();
        law_log_keeps_latest(front);
        let k = if front.len() > 100 {
            front.len() - 100
        } else {
            0
        };
        let k2 = if msgs.len() > 100 {
            msgs.len() - 100
        } else {
            0
        };
        let prev = record_all(Seq::empty(), front);
        assert(prev == front.skip(k));
        if prev.len() >= 100 {
            assert(prev.drop_first().push(msgs.last()) =~= msgs.skip(k2));
        } else {
            assert(prev.push(msgs.last()) =~= msgs.skip(k2));
        }
    } else {
        assert(msgs.skip(0) =~= msgs);
    }
}

/// The log page shows every kept message in full, in order, each followed by a
/// newline: with no messages its lines are empty, and one more message adds exactly
/// that message and a newline at the end.
pub proof fn law_log_lines_append(entries: Seq<Seq<char>>, msg: Seq<char>)
    ensures
        log_lines(Seq::empty()) == Seq::<char>::empty(),
        log_lines(entries.push(msg)) == log_lines(entries) + msg + "\n"@,
{
    assert(entries.push(msg).drop_last() =~= entries);
}

} // verus!
