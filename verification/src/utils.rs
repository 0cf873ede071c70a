//! Building the XML payload of a sample toast notification.
//!
//! A sample notification holds a title, a message, and optionally a
//! comma-separated list of button captions; each caption becomes one
//! `<action>` element whose `arguments` and `content` attributes both carry
//! the caption.

use vstd::prelude::*;
use vstd::string::StrSliceExecFns;
use vstd::string::StringExecFns;

verus! {

/// `s` cut at every comma: the tokens between commas, in order. A string
/// without commas is one token; every comma separates two tokens, so `n`
/// commas give `n + 1` tokens, empty ones kept.
pub open spec fn split_commas(s: Seq<char>) -> Seq<Seq<char>>
    decreases s.len(),
{
    if s.len() == 0 {
        seq![Seq::<char>::empty()]
    } else if s[0] == ',' {
        seq![Seq::<char>::empty()] + split_commas(s.skip(1))
    } else {
        let rest = split_commas(s.skip(1));
        seq![seq![s[0]] + rest[0]] + rest.skip(1)
    }
}

/// The `<action>` element for one button caption.
pub open spec fn action_xml(caption: Seq<char>) -> Seq<char> {
    "<action arguments=\""@ + caption + "\" content=\""@ + caption + "\"/>"@
}

/// The `<action>` elements of all captions, joined by line breaks.
pub open spec fn joined_actions(captions: Seq<Seq<char>>) -> Seq<char>
    decreases captions.len(),
{
    if captions.len() == 0 {
        Seq::empty()
    } else if captions.len() == 1 {
        action_xml(captions[0])
    } else {
        action_xml(captions[0]) + "\n"@ + joined_actions(captions.skip(1))
    }
}

/// The `<actions>` block: empty without a button list, else one `<action>`
/// per comma-separated caption. A button list always yields at least one
/// caption, so the block is always written for `Some`.
pub open spec fn actions_section(buttons: Option<Seq<char>>) -> Seq<char> {
    match buttons {
        None => Seq::empty(),
        Some(b) => "<actions>"@ + joined_actions(split_commas(b)) + "</actions>"@,
    }
}

/// The complete toast document for a sample notification.
pub open spec fn sample_notification_xml(
    title: Seq<char>,
    message: Seq<char>,
    buttons: Option<Seq<char>>,
) -> Seq<char> {
    "\n<toast>\n  <visual>\n    <binding template=\"ToastGeneric\">\n      <text>"@ + title
        + "</text>\n      <text>"@ + message + "</text>\n    </binding>\n  </visual>\n    "@
        + actions_section(buttons) + "\n</toast>"@
}

/// A string without commas splits into itself as the only token.
proof fn lemma_split_no_comma(u: Seq<char>)
    requires
        forall|j: int| 0 <= j < u.len() ==> u[j] != ',',
    ensures
        split_commas(u) == seq![u],
    decreases u.len(),
{
    if u.len() == 0 {
        assert(u =~= Seq::<char>::empty());
    } else {
        assert(forall|j: int| 0 <= j < u.skip(1).len() ==> u.skip(1)[j] == u[j + 1]);
        lemma_split_no_comma(u.skip(1));
        let rest = split_commas(u.skip(1));
        assert(rest[0] == u.skip(1));
        assert(seq![u[0]] + u.skip(1) =~= u);
        assert(rest.skip(1) =~= Seq::<Seq<char>>::empty());
        assert(split_commas(u) =~= seq![u]);
    }
}

/// Splitting at the first comma: the prefix before it is the first token,
/// and the rest of the string splits independently.
proof fn lemma_split_first_comma(u: Seq<char>, p: int)
    requires
        0 <= p < u.len(),
        u[p] == ',',
        forall|j: int| 0 <= j < p ==> u[j] != ',',
    ensures
        split_commas(u) == seq![u.subrange(0, p)] + split_commas(u.skip(p + 1)),
    decreases p,
{
    if p == 0 {
        assert(u.subrange(0, 0) =~= Seq::<char>::empty());
    } else {
        assert(forall|j: int| 0 <= j < u.skip(1).len() ==> u.skip(1)[j] == u[j + 1]);
        lemma_split_first_comma(u.skip(1), p - 1);
        let rest = split_commas(u.skip(1));
        assert(rest[0] == u.skip(1).subrange(0, p - 1));
        assert(seq![u[0]] + u.skip(1).subrange(0, p - 1) =~= u.subrange(0, p));
        assert(rest.skip(1) =~= split_commas(u.skip(1).skip(p)));
        assert(u.skip(1).skip(p) =~= u.skip(p + 1));
        assert(split_commas(u) =~= seq![u.subrange(0, p)] + split_commas(u.skip(p + 1)));
    }
}

/// Appending one caption extends the joined block by a line break — except
/// before the first caption — and that caption's `<action>` element.
proof fn lemma_joined_snoc(captions: Seq<Seq<char>>, x: Seq<char>)
    ensures
        joined_actions(captions.push(x)) == (if captions.len() == 0 {
            action_xml(x)
        } else {
            joined_actions(captions) + "\n"@ + action_xml(x)
        }),
    decreases captions.len(),
{
    if captions.len() == 0 {
        assert(captions.push(x)[0] == x);
    } else {
        assert(captions.push(x)[0] == captions[0]);
        assert(captions.push(x).skip(1) =~= captions.skip(1).push(x));
        lemma_joined_snoc(captions.skip(1), x);
        if captions.len() == 1 {
            assert(captions.skip(1).len() == 0);
            assert(joined_actions(captions.push(x)) =~= joined_actions(captions) + "\n"@
                + action_xml(x));
        } else {
            assert(joined_actions(captions.push(x)) =~= joined_actions(captions) + "\n"@
                + action_xml(x));
        }
    }
}

/// Cuts `s` at every comma, keeping empty tokens, like the split the
/// standard library performs.
fn split_commas_str(s: &str) -> (parts: Vec<String>)
    ensures
        parts@.map_values(|p: String| p@) == split_commas(s@),
{
    let n = s.unicode_len();
    let mut parts: Vec<String> = Vec::new();
    let mut start: usize = 0;
    let mut i: usize = 0;
    proof {
        assert(s@.skip(0) =~= s@);
        assert(parts@.map_values(|p: String| p@) + split_commas(s@) =~= split_commas(s@));
    }
    while i < n
        invariant
            0 <= start <= i <= n,
            n == s@.len(),
            split_commas(s@) == parts@.map_values(|p: String| p@) + split_commas(
                s@.skip(start as int),
            ),
            forall|j: int| start <= j < i ==> s@[j] != ',',
        decreases n - i,
    {
        let c = s.get_char(i);
        if c == ',' {
            let ghost parts0 = parts@;
            let token = s.substring_char(start, i).to_owned();
            parts.push(token);
            proof {
                let u = s@.skip(start as int);
                assert(forall|j: int| 0 <= j < i - start ==> u[j] == s@[j + start]);
                lemma_split_first_comma(u, i - start);
                assert(u.subrange(0, i - start) =~= s@.subrange(start as int, i as int));
                assert(token@ == u.subrange(0, i - start));
                assert(u.skip(i - start + 1) =~= s@.skip(i + 1));
                assert(parts@.map_values(|p: String| p@) =~= parts0.map_values(
                    |p: String| p@,
                ).push(token@));
                assert(parts@.map_values(|p: String| p@) + split_commas(s@.skip(i + 1))
                    =~= parts0.map_values(|p: String| p@) + (seq![u.subrange(0, i - start)]
                    + split_commas(u.skip(i - start + 1))));
            }
            start = i + 1;
        }
        i = i + 1;
    }
    let ghost parts0 = parts@;
    let token = s.substring_char(start, n).to_owned();
    parts.push(token);
    proof {
        let u = s@.skip(start as int);
        assert(forall|j: int| 0 <= j < u.len() ==> u[j] == s@[j + start]);
        lemma_split_no_comma(u);
        assert(token@ =~= u);
        assert(parts@.map_values(|p: String| p@) =~= parts0.map_values(|p: String| p@).push(
            token@,
        ));
        assert(parts@.map_values(|p: String| p@) =~= split_commas(s@));
    }
    parts
}

/// Builds the XML document of a sample toast notification: the title and
/// message as the two text lines, and, when a comma-separated button list is
/// given, one `<action>` element per caption.
pub fn create_sample_notification(title: &str, message: &str, buttons: Option<String>) -> (r:
    String)
    ensures
        r@ == sample_notification_xml(
            title@,
            message@,
            match buttons {
                Some(b) => Some(b@),
                None => None,
            },
        ),
{
    let mut actions = String::new();
    match &buttons {
        Some(btn) => {
            let parts = split_commas_str(btn.as_str());
            let ghost pv = parts@.map_values(|p: String| p@);
            actions.append("<actions>");
            let mut k: usize = 0;
            while k < parts.len()
                invariant
                    k <= parts.len(),
                    pv == parts@.map_values(|p: String| p@),
                    actions@ == "<actions>"@ + joined_actions(pv.subrange(0, k as int)),
                decreases parts.len() - k,
            {
                if k > 0 {
                    actions.append("\n");
                }
                actions.append("<action arguments=\"");
                actions.append(parts[k].as_str());
                actions.append("\" content=\"");
                actions.append(parts[k].as_str());
                actions.append("\"/>");
                proof {
                    lemma_joined_snoc(pv.subrange(0, k as int), pv[k as int]);
                    assert(pv.subrange(0, k + 1) =~= pv.subrange(0, k as int).push(pv[k as int]));
                    assert(actions@ =~= "<actions>"@ + joined_actions(pv.subrange(0, k + 1)));
                }
                k = k + 1;
            }
            actions.append("</actions>");
            proof {
                assert(pv.subrange(0, parts@.len() as int) =~= pv);
            }
        },
        None => {},
    }
    let mut r = String::new();
    r.append("\n<toast>\n  <visual>\n    <binding template=\"ToastGeneric\">\n      <text>");
    r.append(title);
    r.append("</text>\n      <text>");
    r.append(message);
    r.append("</text>\n    </binding>\n  </visual>\n    ");
    r.append(actions.as_str());
    r.append("\n</toast>");
    proof {
        assert(r@ =~= sample_notification_xml(
            title@,
            message@,
            match buttons {
                Some(b) => Some(b@),
                None => None,
            },
        ));
    }
    r
}

} // verus!
