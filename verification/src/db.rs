//! Recording of answered queries: builds the INSERT statement that appends
//! one row — question, prompt, retrieval distances, retrieved sections,
//! answer, timestamp — to the configured answer table, with every string
//! value escaped, and decides when logging is disabled.

use crate::base::escape_seq;
use crate::base::escape_sql_string;
use crate::base::views_of;
use chrono::Datelike;
use chrono::Timelike;
use vstd::prelude::*;

verus! {

/// Connection-side configuration of the recorder, kept immutable after
/// construction. The retrieval tuning values are carried for downstream
/// consumers and not interpreted here.
pub struct DatabendDriver {
    /// Target schema of the answer table.
    pub database: String,
    /// Table holding the indexed document chunks.
    pub table: String,
    /// Append-only log table for answered queries; empty means logging is
    /// disabled.
    pub answer_table: String,
    /// Lower bound on the size of indexed chunks.
    pub min_content_length: usize,
    /// Upper bound on the size of indexed chunks.
    pub max_content_length: usize,
    /// How many similar sections retrieval hands on.
    pub top: usize,
    /// Product name shown to the prompt assembly.
    pub product: String,
    /// Template the prompt assembly fills in.
    pub prompt_template: String,
}

/// The mathematical content of a `DatabendDriver`.
pub struct DatabendDriverModel {
    pub database: Seq<char>,
    pub table: Seq<char>,
    pub answer_table: Seq<char>,
    pub min_content_length: nat,
    pub max_content_length: nat,
    pub top: nat,
    pub product: Seq<char>,
    pub prompt_template: Seq<char>,
}

impl View for DatabendDriver {
    type V = DatabendDriverModel;

    open spec fn view(&self) -> DatabendDriverModel {
        DatabendDriverModel {
            database: self.database@,
            table: self.table@,
            answer_table: self.answer_table@,
            min_content_length: self.min_content_length as nat,
            max_content_length: self.max_content_length as nat,
            top: self.top as nat,
            product: self.product@,
            prompt_template: self.prompt_template@,
        }
    }
}

/// The decimal digit `d` as a character.
pub open spec fn digit_char(d: nat) -> char
    recommends
        d < 10,
{
    if d == 0 {
        '0'
    } else if d == 1 {
        '1'
    } else if d == 2 {
        '2'
    } else if d == 3 {
        '3'
    } else if d == 4 {
        '4'
    } else if d == 5 {
        '5'
    } else if d == 6 {
        '6'
    } else if d == 7 {
        '7'
    } else if d == 8 {
        '8'
    } else {
        '9'
    }
}

/// The decimal digits of `n`, most significant first, without leading zeros.
pub open spec fn dec_rep(n: nat) -> Seq<char>
    decreases n,
{
    if n < 10 {
        seq![digit_char(n)]
    } else {
        dec_rep(n / 10).push(digit_char(n % 10))
    }
}

/// The decimal digits of `n`, zero-padded to at least two places.
pub open spec fn pad2(n: nat) -> Seq<char> {
    if n < 10 {
        seq!['0'] + dec_rep(n)
    } else {
        dec_rep(n)
    }
}

/// The decimal digits of `n`, zero-padded to at least four places.
pub open spec fn pad4(n: nat) -> Seq<char> {
    if n < 10 {
        seq!['0', '0', '0'] + dec_rep(n)
    } else if n < 100 {
        seq!['0', '0'] + dec_rep(n)
    } else if n < 1000 {
        seq!['0'] + dec_rep(n)
    } else {
        dec_rep(n)
    }
}

/// The `YYYY-MM-DD HH:MM:SS` text of a wall-clock instant, at second
/// precision; the year takes four places and more only when it needs them.
pub open spec fn timestamp_text(y: nat, mo: nat, d: nat, h: nat, mi: nat, s: nat) -> Seq<char> {
    pad4(y) + seq!['-'] + pad2(mo) + seq!['-'] + pad2(d) + seq![' '] + pad2(h) + seq![':'] + pad2(
        mi,
    ) + seq![':'] + pad2(s)
}

/// The ranges the wall clock's parts fall in: a year at or after the Unix
/// epoch, and calendar fields in their usual bounds.
pub open spec fn clock_parts_valid(y: nat, mo: nat, d: nat, h: nat, mi: nat, s: nat) -> bool {
    &&& 1970 <= y
    &&& 1 <= mo <= 12
    &&& 1 <= d <= 31
    &&& h <= 23
    &&& mi <= 59
    &&& s <= 59
}

/// The text is the `YYYY-MM-DD HH:MM:SS` rendering of some valid wall-clock
/// instant.
pub open spec fn is_clock_timestamp(t: Seq<char>) -> bool {
    exists|y: nat, mo: nat, d: nat, h: nat, mi: nat, s: nat|
        clock_parts_valid(y, mo, d, h, mi, s) && t == #[trigger] timestamp_text(y, mo, d, h, mi, s)
}

/// Relies on `chrono::Utc::now` for the current UTC instant, and on
/// `chrono::Datelike::year`, `month`, `day` and `chrono::Timelike::hour`,
/// `minute`, `second` to take it apart: month is 1 to 12, day 1 to 31, hour
/// 0 to 23, minute and second 0 to 59, as their documentation states, and
/// the year is at or after 1970 because `now` only returns instants at or
/// after the Unix epoch (it does not return on a clock set before it).
#[verifier::external_body]
fn now_utc_parts() -> (r: (u32, u32, u32, u32, u32, u32))
    ensures
        1970 <= r.0,
        1 <= r.1 <= 12,
        1 <= r.2 <= 31,
        r.3 <= 23,
        r.4 <= 59,
        r.5 <= 59,
{
    let now: chrono::DateTime<chrono::Utc> = chrono::Utc::now();
    (
        now.year() as u32,
        now.month(),
        now.day(),
        now.hour(),
        now.minute(),
        now.second(),
    )
}

/// The decimal digit `d` as a character.
fn digit_of(d: u32) -> (c: char)
    requires
        d < 10,
    ensures
        c == digit_char(d as nat),
{
    if d == 0 {
        '0'
    } else if d == 1 {
        '1'
    } else if d == 2 {
        '2'
    } else if d == 3 {
        '3'
    } else if d == 4 {
        '4'
    } else if d == 5 {
        '5'
    } else if d == 6 {
        '6'
    } else if d == 7 {
        '7'
    } else if d == 8 {
        '8'
    } else {
        '9'
    }
}

/// Appends the decimal digits of `n` to `out`.
fn push_dec(out: &mut String, n: u32)
    ensures
        final(out)@ == old(out)@ + dec_rep(n as nat),
    decreases n,
{
    if n < 10 {
        let ghost pre = out@;
        out.push(digit_of(n));
        proof {
            assert(out@ =~= pre + dec_rep(n as nat));
        }
    } else {
        push_dec(out, n / 10);
        out.push(digit_of(n % 10));
        proof {
            assert(out@ =~= old(out)@ + dec_rep(n as nat));
        }
    }
}

/// Appends `n` to `out`, zero-padded to at least two places.
fn push_pad2(out: &mut String, n: u32)
    ensures
        final(out)@ == old(out)@ + pad2(n as nat),
{
    if n < 10 {
        out.push('0');
        push_dec(out, n);
        proof {
            assert(final(out)@ =~= old(out)@ + pad2(n as nat));
        }
    } else {
        push_dec(out, n);
    }
}

/// Appends `n` to `out`, zero-padded to at least four places.
fn push_pad4(out: &mut String, n: u32)
    ensures
        final(out)@ == old(out)@ + pad4(n as nat),
{
    if n < 10 {
        out.push('0');
        out.push('0');
        out.push('0');
        push_dec(out, n);
    } else if n < 100 {
        out.push('0');
        out.push('0');
        push_dec(out, n);
    } else if n < 1000 {
        out.push('0');
        push_dec(out, n);
    } else {
        push_dec(out, n);
    }
    proof {
        assert(final(out)@ =~= old(out)@ + pad4(n as nat));
    }
}

/// Renders clock parts as `YYYY-MM-DD HH:MM:SS`.
fn format_timestamp(y: u32, mo: u32, d: u32, h: u32, mi: u32, s: u32) -> (r: String)
    ensures
        r@ == timestamp_text(y as nat, mo as nat, d as nat, h as nat, mi as nat, s as nat),
{
    let mut out = String::new();
    push_pad4(&mut out, y);
    out.push('-');
    push_pad2(&mut out, mo);
    out.push('-');
    push_pad2(&mut out, d);
    out.push(' ');
    push_pad2(&mut out, h);
    out.push(':');
    push_pad2(&mut out, mi);
    out.push(':');
    push_pad2(&mut out, s);
    proof {
        assert(out@ =~= timestamp_text(
            y as nat,
            mo as nat,
            d as nat,
            h as nat,
            mi as nat,
            s as nat,
        ));
    }
    out
}

/// The current UTC wall-clock instant, formatted `YYYY-MM-DD HH:MM:SS` at
/// record-creation time.
pub fn current_timestamp() -> (r: String)
    ensures
        is_clock_timestamp(r@),
{
    let (y, mo, d, h, mi, s) = now_utc_parts();
    let r = format_timestamp(y, mo, d, h, mi, s);
    proof {
        assert(clock_parts_valid(y as nat, mo as nat, d as nat, h as nat, mi as nat, s as nat));
        assert(r@ == timestamp_text(y as nat, mo as nat, d as nat, h as nat, mi as nat, s as nat));
    }
    r
}

/// The comma-and-space separated run of the given texts.
pub open spec fn comma_joined(items: Seq<Seq<char>>) -> Seq<char>
    decreases items.len(),
{
    if items.len() == 0 {
        Seq::empty()
    } else if items.len() == 1 {
        items[0]
    } else {
        comma_joined(items.drop_last()) + seq![',', ' '] + items.last()
    }
}

/// The bracketed list the statement shows for the retrieval distances, each
/// one already rendered as text.
pub open spec fn distances_list_text(items: Seq<Seq<char>>) -> Seq<char> {
    seq!['['] + comma_joined(items) + seq![']']
}

/// Renders the already-textual distance values as a bracketed list.
fn render_distances(items: &Vec<String>) -> (r: String)
    ensures
        r@ == distances_list_text(views_of(items@)),
{
    let mut out = String::new();
    out.push('[');
    let mut i: usize = 0;
    proof {
        assert(views_of(items@.take(0)) =~= Seq::<Seq<char>>::empty());
        assert(out@ =~= seq!['['] + comma_joined(views_of(items@.take(0))));
    }
    while i < items.len()
        invariant
            i <= items@.len(),
            out@ == seq!['['] + comma_joined(views_of(items@.take(i as int))),
        decreases items@.len() - i,
    {
        let ghost pre = out@;
        if i > 0 {
            out.push(',');
            out.push(' ');
        }
        out.append(items[i].as_str());
        proof {
            let t1 = views_of(items@.take(i as int + 1));
            assert(t1.drop_last() =~= views_of(items@.take(i as int)));
            assert(t1.last() == items@[i as int]@);
            if i == 0 {
                assert(t1.len() == 1);
                assert(comma_joined(t1) == t1[0]);
                assert(out@ =~= seq!['['] + comma_joined(t1));
            } else {
                assert(comma_joined(t1) == comma_joined(t1.drop_last()) + seq![',', ' ']
                    + t1.last());
                assert(out@ =~= seq!['['] + comma_joined(t1));
            }
        }
        i = i + 1;
    }
    proof {
        assert(items@.take(items@.len() as int) =~= items@);
    }
    out.push(']');
    proof {
        assert(out@ =~= distances_list_text(views_of(items@)));
    }
    out
}

/// The full INSERT statement for one answered query: six positional values —
/// question, prompt, the distance list, sections, answer (the four string
/// values escaped) and the timestamp — against `database`.`answer_table`.
pub open spec fn insert_answer_sql_text(
    m: DatabendDriverModel,
    query: Seq<char>,
    prompt: Seq<char>,
    distances: Seq<Seq<char>>,
    sections: Seq<char>,
    answer: Seq<char>,
    ts: Seq<char>,
) -> Seq<char> {
    "INSERT INTO "@ + m.database + "."@ + m.answer_table
        + " (question, prompt, similar_distances, similar_sections, answer, ts) VALUES ('"@
        + escape_seq(query) + "','"@ + escape_seq(prompt) + "', "@ + distances_list_text(distances)
        + ", '"@ + escape_seq(sections) + "', '"@ + escape_seq(answer) + "', '"@ + ts + "')"@
}

/// The text is the INSERT statement for these values at some valid
/// wall-clock instant.
pub open spec fn is_insert_answer_sql(
    m: DatabendDriverModel,
    query: Seq<char>,
    prompt: Seq<char>,
    distances: Seq<Seq<char>>,
    sections: Seq<char>,
    answer: Seq<char>,
    text: Seq<char>,
) -> bool {
    exists|ts: Seq<char>|
        is_clock_timestamp(ts) && text == #[trigger] insert_answer_sql_text(
            m,
            query,
            prompt,
            distances,
            sections,
            answer,
            ts,
        )
}

impl DatabendDriver {
    /// Builds a recorder configuration from its parts.
    pub fn new(
        database: String,
        table: String,
        answer_table: String,
        min_content_length: usize,
        max_content_length: usize,
        top: usize,
        product: String,
        prompt_template: String,
    ) -> (r: DatabendDriver)
        ensures
            r.database == database,
            r.table == table,
            r.answer_table == answer_table,
            r.min_content_length == min_content_length,
            r.max_content_length == max_content_length,
            r.top == top,
            r.product == product,
            r.prompt_template == prompt_template,
    {
        DatabendDriver {
            database,
            table,
            answer_table,
            min_content_length,
            max_content_length,
            top,
            product,
            prompt_template,
        }
    }

    /// Builds the INSERT statement for one answered query with the given
    /// timestamp text: every string value escaped, the distances as a
    /// bracketed list.
    pub fn build_insert_answer_sql(
        &self,
        query: &str,
        prompt: &str,
        similar_distances: &Vec<String>,
        similar_sections: &str,
        answer: &str,
        ts: &str,
    ) -> (r: String)
        ensures
            r@ == insert_answer_sql_text(
                self@,
                query@,
                prompt@,
                views_of(similar_distances@),
                similar_sections@,
                answer@,
                ts@,
            ),
    {
        let eq = escape_sql_string(query);
        let ep = escape_sql_string(prompt);
        let es = escape_sql_string(similar_sections);
        let ea = escape_sql_string(answer);
        let ds = render_distances(similar_distances);
        let mut sql = String::new();
        sql.append("INSERT INTO ");
        sql.append(self.database.as_str());
        sql.append(".");
        sql.append(self.answer_table.as_str());
        sql.append(" (question, prompt, similar_distances, similar_sections, answer, ts) VALUES ('");
        sql.append(eq.as_str());
        sql.append("','");
        sql.append(ep.as_str());
        sql.append("', ");
        sql.append(ds.as_str());
        sql.append(", '");
        sql.append(es.as_str());
        sql.append("', '");
        sql.append(ea.as_str());
        sql.append("', '");
        sql.append(ts);
        sql.append("')");
        proof {
            assert(sql@ =~= insert_answer_sql_text(
                self@,
                query@,
                prompt@,
                views_of(similar_distances@),
                similar_sections@,
                answer@,
                ts@,
            ));
        }
        sql
    }

    /// What one `insert_answer` call sends to the store: `None` when
    /// `answer_table` is empty — logging is disabled, the store is never
    /// invoked, and the call counts as a success — else exactly the INSERT
    /// statement for these values, timestamped at this call.
    pub fn insert_answer_sql(
        &self,
        query: &str,
        prompt: &str,
        similar_distances: &Vec<String>,
        similar_sections: &str,
        answer: &str,
    ) -> (r: Option<String>)
        ensures
            (r is None) <==> self.answer_table@.len() == 0,
            r matches Some(sql) ==> is_insert_answer_sql(
                self@,
                query@,
                prompt@,
                views_of(similar_distances@),
                similar_sections@,
                answer@,
                sql@,
            ),
    {
        if self.answer_table.as_str().unicode_len() == 0 {
            return None;
        }
        let ts = current_timestamp();
        let sql = self.build_insert_answer_sql(
            query,
            prompt,
            similar_distances,
            similar_sections,
            answer,
            ts.as_str(),
        );
        proof {
            assert(sql@ == insert_answer_sql_text(
                self@,
                query@,
                prompt@,
                views_of(similar_distances@),
                similar_sections@,
                answer@,
                ts@,
            ));
        }
        Some(sql)
    }
}

} // verus!
