//! Statements and values of the relational store, as text.

use crate::text::{
    char_is_numeric, contains, ends_with_char, has_substring, is_numeric_char, lines, lines_of,
    lowercase_of, push_str, replace, replaced, starts_with, texts_of, to_lowercase,
};
use vstd::prelude::*;

verus! {

/// How a missing value is written.
pub const NULLSTR: &'static str = "NULL";

/// Whether every character of `text` is numeric.
pub fn is_string_numeric(text: &str) -> (r: bool)
    ensures
        r == forall|i: int| 0 <= i < text@.len() ==> is_numeric_char(#[trigger] text@[i]),
{
    let mut all = true;
    for c in it: text.chars()
        invariant
            it.seq() == text@,
            all == forall|i: int| 0 <= i < it.index() ==> is_numeric_char(#[trigger] text@[i]),
    {
        if !char_is_numeric(c) {
            all = false;
        }
    }
    all
}

/// The statement that selects from `table` the rows that `selection` holds
/// of, reading from `from`, or from `table` where `from` is empty.
pub open spec fn select_statement(table: Seq<char>, from: Seq<char>, selection: Seq<char>) -> Seq<
    char,
> {
    "SELECT "@ + table + ".* FROM "@ + (if from.len() == 0 {
        table
    } else {
        from
    }) + " WHERE "@ + selection
}

/// The statement that selects from `table` the rows that `selection` holds
/// of, reading from `from`, or from `table` where `from` is empty.
pub fn str_select_statement(table: &str, from: &str, selection: &str) -> (s: String)
    ensures
        s@ == select_statement(table@, from@, selection@),
{
    let mut s = "SELECT ".to_owned();
    push_str(&mut s, table);
    push_str(&mut s, ".* FROM ");
    if from.is_empty() {
        push_str(&mut s, table);
    } else {
        push_str(&mut s, from);
    }
    push_str(&mut s, " WHERE ");
    push_str(&mut s, selection);
    s
}

/// `text` with every single and every double quote doubled.
pub open spec fn escaped_quotes(text: Seq<char>) -> Seq<char> {
    replaced(replaced(text, "'"@, "''"@), "\""@, "\"\""@)
}

/// Doubles every single and every double quote of `s`.
pub fn escape_quotes_mysql(s: &str) -> (r: String)
    ensures
        r@ == escaped_quotes(s@),
{
    let s = replace(s, "'", "''");
    replace(s.as_str(), "\"", "\"\"")
}

/// `text` with doubled quotes made single again, but for those that stand
/// for an empty string or a lone quote inside a serialised value.
pub open spec fn unescaped(text: Seq<char>) -> Seq<char> {
    let a = replaced(text, "''"@, "'"@);
    let b = replaced(a, "\"\""@, "\""@);
    let c = replaced(b, ":\"}"@, ":\"\"}"@);
    replaced(c, "\"'\""@, "\"''\""@)
}

/// Undoes [`escape_quotes_mysql`], keeping empty strings inside serialised
/// values apart from escaped quotes.
pub fn remove_escaped_chars(s: &str) -> (r: String)
    ensures
        r@ == unescaped(s@),
{
    let s = replace(s, "''", "'");
    let s = replace(s.as_str(), "\"\"", "\"");
    // where there are empty strings and not escaped quotes
    let s = replace(s.as_str(), ":\"}", ":\"\"}");
    replace(s.as_str(), "\"'\"", "\"''\"")
}

/// A line of a schema that is passed over: a comment or an empty line.
pub open spec fn is_skipped_line(line: Seq<char>) -> bool {
    "--"@.is_prefix_of(line) || line.len() == 0
}

/// A statement of a schema that is issued: one that creates something.
pub open spec fn is_issued(statement: Seq<char>) -> bool {
    has_substring(lowercase_of(statement), "create"@)
}

/// The statements to issue for the lines `lines` of a schema, after the
/// unfinished statement `pending`. Lines are put together as they stand until
/// one ends in a semicolon.
pub open spec fn statements_from(lines: Seq<Seq<char>>, pending: Seq<char>) -> Seq<Seq<char>>
    decreases lines.len(),
{
    if lines.len() == 0 {
        Seq::empty()
    } else {
        let rest = lines.skip(1);
        if is_skipped_line(lines[0]) {
            statements_from(rest, pending)
        } else {
            let statement = pending + lines[0];
            if statement.len() > 0 && statement.last() == ';' {
                if is_issued(statement) {
                    seq![statement] + statements_from(rest, Seq::empty())
                } else {
                    statements_from(rest, Seq::empty())
                }
            } else {
                statements_from(rest, statement)
            }
        }
    }
}

/// The statements of `schema` that create something, in order: comments and
/// empty lines are dropped, and a statement runs over lines until one ends in
/// a semicolon.
pub fn schema_statements(schema: &str) -> (r: Vec<String>)
    ensures
        texts_of(r@) == statements_from(lines_of(schema@), Seq::empty()),
{
    let all = lines(schema);
    let ghost texts = texts_of(all@);
    let mut out: Vec<String> = Vec::new();
    let mut stmt = String::new();
    let mut i: usize = 0;
    proof {
        assert(texts.skip(0) =~= texts);
        assert(texts_of(out@) + statements_from(texts, stmt@) =~= statements_from(texts, stmt@));
    }
    while i < all.len()
        invariant
            0 <= i <= all@.len(),
            texts == texts_of(all@),
            texts_of(out@) + statements_from(texts.skip(i as int), stmt@) == statements_from(
                texts,
                Seq::empty(),
            ),
        decreases all@.len() - i,
    {
        let line = all[i].as_str();
        proof {
            assert(texts.skip(i as int)[0] == line@);
            assert(texts.skip(i as int).skip(1) =~= texts.skip(i + 1));
        }
        if !(starts_with(line, "--") || line.is_empty()) {
            let ghost before = stmt@;
            push_str(&mut stmt, line);
            if ends_with_char(stmt.as_str(), ';') {
                // statements that only query are passed over
                if contains(to_lowercase(stmt.as_str()).as_str(), "create") {
                    let ghost shown = texts_of(out@);
                    out.push(stmt);
                    proof {
                        assert(texts_of(out@) =~= shown + seq![before + line@]);
                        assert(texts_of(out@) + statements_from(
                            texts.skip(i + 1),
                            Seq::empty(),
                        ) =~= shown + (seq![before + line@] + statements_from(
                            texts.skip(i + 1),
                            Seq::empty(),
                        )));
                    }
                }
                stmt = String::new();
            }
        }
        i = i + 1;
    }
    proof {
        assert(texts.skip(all@.len() as int).len() == 0);
        assert(texts_of(out@) + Seq::<Seq<char>>::empty() =~= texts_of(out@));
    }
    out
}

} // verus!
