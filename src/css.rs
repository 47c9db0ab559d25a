//! Style sheet rules that carry each state's document as an encoded background image.
use crate::convert::SVGState;
use crate::outline::joined;
use base64::Engine;
use vstd::prelude::*;
use vstd::string::*;

verus! {

/// The standard base64 text, without padding, of the UTF-8 bytes of `s`.
pub uninterp spec fn base64_text(s: Seq<char>) -> Seq<char>;

/// Relies on `base64::engine::general_purpose::STANDARD_NO_PAD.encode`, which
/// encodes the bytes of a string with the standard alphabet and no padding.
#[verifier::external_body]
fn encode_base64(s: &String) -> (r: String)
    ensures
        r@ == base64_text(s@),
{
    base64::engine::general_purpose::STANDARD_NO_PAD.encode(s)
}

/// The class name of a state: its name, or `DEFAULT` for the unnamed state.
pub open spec fn class_name(name: Seq<char>) -> Seq<char> {
    if name.len() == 0 {
        "DEFAULT"@
    } else {
        name
    }
}

/// The rule for one state of the icon `stem`, given the encoded document.
pub open spec fn css_rule(stem: Seq<char>, name: Seq<char>, encoded: Seq<char>) -> Seq<char> {
    "."@ + stem + "."@ + class_name(name) + "{background-image: url(\"data:image/svg+xml;base64,"@ + encoded
        + "\")}\n"@
}

/// The rules for all states, in order.
pub open spec fn css_rules(stem: Seq<char>, states: Seq<SVGState>) -> Seq<char> {
    joined(states.map_values(|s: SVGState| css_rule(stem, s.name@, base64_text(s.svg@))))
}

/// Writes the rule for the state `name` of the icon `stem`, given its encoded document.
pub fn css_rule_text(stem: &str, name: &String, encoded: &String) -> (r: String)
    ensures
        r@ == css_rule(stem@, name@, encoded@),
{
    let mut s = String::new();
    s.append(".");
    s.append(stem);
    s.append(".");
    if name.as_str().is_empty() {
        s.append("DEFAULT");
    } else {
        s.append(name.as_str());
    }
    s.append("{background-image: url(\"data:image/svg+xml;base64,");
    s.append(encoded.as_str());
    s.append("\")}\n");
    s
}

/// A style sheet with one rule per state, each rule carrying the state's
/// document, base64-encoded, as a background image.
pub fn dmi2css(stem: &str, states: &Vec<SVGState>) -> (r: String)
    ensures
        r@ == css_rules(stem@, states@),
{
    let mut s = String::new();
    let mut i: usize = 0;
    while i < states.len()
        invariant
            i <= states@.len(),
            s@ == css_rules(stem@, states@.take(i as int)),
        decreases states@.len() - i,
    {
        let encoded = encode_base64(&states[i].svg);
        let rule = css_rule_text(stem, &states[i].name, &encoded);
        proof {
            let t = states@.take(i + 1).map_values(|s: SVGState| css_rule(stem@, s.name@, base64_text(s.svg@)));
            assert(t.drop_last() =~= states@.take(i as int).map_values(
                |s: SVGState| css_rule(stem@, s.name@, base64_text(s.svg@)),
            ));
        }
        s.append(rule.as_str());
        i = i + 1;
    }
    assert(states@.take(states@.len() as int) =~= states@);
    s
}

} // verus!
