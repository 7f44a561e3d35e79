//! Picking the lines of which a pattern holds.

use vstd::prelude::*;
use vstd::utf8::is_ascii_chars;
use crate::grep_error::GrepError;
use crate::engine::regex_accepts;
use crate::pattern::RegexView;
use crate::regex::Regex;
use crate::views::lemma_deep_view_push;

verus! {

/// Whether one of the patterns holds of `line`.
pub open spec fn some_accepts(regexes: Seq<RegexView>, line: Seq<char>) -> bool {
    exists|k: int| 0 <= k < regexes.len() && regex_accepts(#[trigger] regexes[k], line)
}

/// The test by which a line is picked: that one of the patterns holds of
/// it.
pub open spec fn matching(regexes: Seq<RegexView>) -> spec_fn(Seq<char>) -> bool {
    |line: Seq<char>| some_accepts(regexes, line)
}

/// The lines that are reported: every line of which one of the patterns
/// holds, in the order of `lines` and as often as it stands there.
pub open spec fn selected(regexes: Seq<RegexView>, lines: Seq<Seq<char>>) -> Seq<Seq<char>> {
    lines.filter(matching(regexes))
}

/// Whether every line is ASCII.
pub open spec fn all_ascii(lines: Seq<Seq<char>>) -> bool {
    forall|i: int| 0 <= i < lines.len() ==> is_ascii_chars(#[trigger] lines[i])
}

/// Whether one of the patterns holds of the ASCII text `line`.
fn any_matches(regex_vec: &Vec<Regex>, line: &String) -> (matched: bool)
    requires
        is_ascii_chars(line@),
    ensures
        matched == some_accepts(regex_vec.deep_view(), line@),
{
    let mut k: usize = 0;
    while k < regex_vec.len()
        invariant
            k <= regex_vec.len(),
            is_ascii_chars(line@),
            forall|j: int|
                0 <= j < k ==> !regex_accepts(#[trigger] regex_vec.deep_view()[j], line@),
        decreases regex_vec.len() - k,
    {
        match regex_vec[k].test(line.as_str()) {
            Ok(true) => {
                proof {
                    assert(regex_accepts(regex_vec.deep_view()[k as int], line@));
                }
                return true;
            },
            _ => {},
        }
        k += 1;
    }
    false
}

/// Picks from `lines` those of which one of the patterns holds.
///
/// Every such line comes out, in the order of `lines`; a line that more
/// than one pattern holds of comes out once for each place at which it
/// stands in `lines`. It fails, with `ErrRegex`, exactly where a line holds
/// a character outside ASCII.
pub fn filtrar_cadena_y_grep(regex_vec: &Vec<Regex>, lines: &Vec<String>) -> (resultado: Result<
    Vec<String>,
    GrepError,
>)
    ensures
        match resultado {
            Ok(found) => all_ascii(lines.deep_view()) && found.deep_view() == selected(
                regex_vec.deep_view(),
                lines.deep_view(),
            ),
            Err(e) => e == GrepError::ErrRegex && !all_ascii(lines.deep_view()),
        },
{
    let mut resultado: Vec<String> = Vec::new();
    let mut i: usize = 0;
    proof {
        let none = Seq::<Seq<char>>::empty();
        assert(lines.deep_view().take(0) =~= none);
        assert(resultado.deep_view() =~= none);
        none.lemma_filter_len(matching(regex_vec.deep_view()));
        assert(selected(regex_vec.deep_view(), none) =~= none);
    }
    while i < lines.len()
        invariant
            i <= lines.len(),
            all_ascii(lines.deep_view().take(i as int)),
            resultado.deep_view() == selected(
                regex_vec.deep_view(),
                lines.deep_view().take(i as int),
            ),
        decreases lines.len() - i,
    {
        let line = &lines[i];
        proof {
            let before = lines.deep_view().take(i as int);
            assert(lines.deep_view().take(i + 1) =~= before.push(line@));
            before.lemma_filter_push(line@, matching(regex_vec.deep_view()));
        }
        if !line.is_ascii() {
            proof {
                assert(!is_ascii_chars(lines.deep_view()[i as int]));
            }
            return Err(GrepError::ErrRegex);
        }
        if any_matches(regex_vec, line) {
            let ghost held = resultado;
            let copy = line.clone();
            let ghost added = copy;
            resultado.push(copy);
            proof {
                lemma_deep_view_push(held, resultado, added);
            }
        }
        i += 1;
        proof {
            assert forall|j: int| 0 <= j < i implies is_ascii_chars(
                #[trigger] lines.deep_view().take(i as int)[j],
            ) by {
                if j < i - 1 {
                    assert(lines.deep_view().take(i - 1)[j] == lines.deep_view().take(i as int)[j]);
                }
            }
        }
    }
    proof {
        assert(lines.deep_view().take(i as int) =~= lines.deep_view());
    }
    Ok(resultado)
}

} // verus!
