//! Turning a raw search into the rows that answer it: the text is escaped and
//! wrapped the way the table's cells are written, then ranked.
use vstd::prelude::*;
use vstd::string::StringExecFns;
use crate::table::{is_ranking, Rows, Table};

verus! {

/// How many rows a search returns when it does not say.
pub const DEFAULT_TAKE: usize = 5;

/// The HTML text that shows the character `c`.
pub open spec fn escape_char(c: char) -> Seq<char> {
    if c == '&' {
        seq!['&', 'a', 'm', 'p', ';']
    } else if c == '<' {
        seq!['&', 'l', 't', ';']
    } else if c == '>' {
        seq!['&', 'g', 't', ';']
    } else {
        seq![c]
    }
}

/// `s` as HTML text: `&`, `<` and `>` replaced by their entities.
pub open spec fn escaped(s: Seq<char>) -> Seq<char>
    decreases s.len(),
{
    if s.len() == 0 {
        Seq::empty()
    } else {
        escaped(s.drop_last()) + escape_char(s.last())
    }
}

/// The number of rows asked for: `take`, or [`DEFAULT_TAKE`] where it is absent.
pub open spec fn take_count(take: Option<usize>) -> nat {
    match take {
        Some(t) => t as nat,
        None => DEFAULT_TAKE as nat,
    }
}

/// `s` escaped and set in a `<pre>` element, as the table writes signatures.
pub open spec fn pre_block(s: Seq<char>) -> Seq<char> {
    seq!['<', 'p', 'r', 'e', '>'] + escaped(s) + seq!['<', '/', 'p', 'r', 'e', '>']
}

/// Relies on html_escape::encode_text: each `&`, `<` and `>` becomes `&amp;`,
/// `&lt;` and `&gt;`, every other character is kept.
#[verifier::external_body]
fn encode_text(s: &str) -> (r: String)
    ensures
        r@ == escaped(s@),
{
    html_escape::encode_text(s).into_owned()
}

/// The query that a search for `search` puts to the table.
pub fn search_key(search: &str) -> (r: String)
    ensures
        r@ == pre_block(search@),
{
    let open = String::from_str("<pre>");
    let body = encode_text(search);
    let key = open.concat(body.as_str()).concat("</pre>");
    proof {
        reveal_strlit("<pre>");
        reveal_strlit("</pre>");
        assert(key@ =~= pre_block(search@));
    }
    key
}

/// The rows of `table` that best match `search`, `take` of them, or
/// [`DEFAULT_TAKE`] where `take` is absent.
pub fn search_rows<'a>(table: &'a Table, search: &str, take: Option<usize>) -> (r: Rows<'a>)
    ensures
        exists|res: Seq<(Seq<String>, int)>|
            #![trigger is_ranking(
                table.rows(),
                table.distances(pre_block(search@)),
                take_count(take),
                res,
            )]
            {
                &&& is_ranking(
                    table.rows(),
                    table.distances(pre_block(search@)),
                    take_count(take),
                    res,
                )
                &&& r@ == res.map_values(|p: (Seq<String>, int)| p.0)
            },
{
    let count = match take {
        Some(t) => t,
        None => DEFAULT_TAKE,
    };
    let key = search_key(search);
    let ranked = table.compare(key.as_str(), count);
    let rows = Rows::from_ranked(ranked);
    proof {
        let res = crate::table::ranked_view(ranked@);
        assert(rows@ =~= res.map_values(|p: (Seq<String>, int)| p.0));
        assert(is_ranking(table.rows(), table.distances(pre_block(search@)), take_count(take), res));
    }
    rows
}

} // verus!
