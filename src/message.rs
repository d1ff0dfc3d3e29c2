//! What a listening client makes of a text message from the host.
use vstd::prelude::*;
use vstd::std_specs::iter::IteratorSpec;

verus! {

/// What a message asks of a listening client.
#[derive(PartialEq, Eq, Debug)]
pub enum Incoming {
    /// The room was triggered: play the click.
    Click,
    /// Play the named sound from the client's own sound directory.
    Sound(String),
    /// Anything else, such as a liveness probe: nothing to do.
    Beat,
}

/// Whether `s` holds no slash.
pub open spec fn slash_free(s: Seq<char>) -> bool {
    !s.contains('/')
}

/// The characters of `s` but its dots, in order.
pub open spec fn without_dots(s: Seq<char>) -> Seq<char> {
    s.filter(|c: char| c != '.')
}

/// How a message reads: `c` is a trigger; `s/` followed by a name without
/// slash asks for that sound, its dots removed so that it names a file of
/// the sound directory; anything else is ignored.
pub open spec fn reading(msg: Seq<char>) -> Option<Seq<char>> {
    if msg.len() >= 2 && msg[0] == 's' && msg[1] == '/' && slash_free(msg.subrange(2, msg.len() as int)) {
        Some(without_dots(msg.subrange(2, msg.len() as int)))
    } else {
        None
    }
}

/// Relies on `String::from_iter` over characters: the string holds them in order.
#[verifier::external_body]
fn text_from_chars(chars: &Vec<char>) -> (r: String)
    ensures
        r@ == chars@,
{
    chars.iter().collect()
}

fn chars_of(s: &str) -> (r: Vec<char>)
    ensures
        r@ == s@,
{
    broadcast use vstd::string::axiom_spec_iter, vstd::string::next_postcondition;

    let mut it = s.chars();
    let mut out: Vec<char> = Vec::new();
    loop
        invariant
            it.obeys_prophetic_iter_laws(),
            it.decrease() is Some,
            out@ + it.remaining() == s@,
        decreases it.decrease()->0,
    {
        let ghost before = it.remaining();
        match it.next() {
            Some(c) => {
                out.push(c);
                assert(out@ + it.remaining() =~= s@) by {
                    assert(before =~= seq![c] + before.drop_first());
                }
            },
            None => {
                assert(out@ =~= s@);
                return out;
            },
        }
    }
}

/// Reads a message from the host.
pub fn classify(msg: &str) -> (r: Incoming)
    ensures
        msg@ == seq!['c'] ==> r == Incoming::Click,
        msg@ != seq!['c'] ==> match reading(msg@) {
            Some(name) => r matches Incoming::Sound(n) && n@ == name,
            None => r == Incoming::Beat,
        },
{
    let chars = chars_of(msg);
    let n = chars.len();
    if n == 1 && chars[0] == 'c' {
        assert(msg@ =~= seq!['c']);
        return Incoming::Click;
    }
    if n < 2 || chars[0] != 's' || chars[1] != '/' {
        return Incoming::Beat;
    }
    let ghost rest = msg@.subrange(2, n as int);
    let mut name: Vec<char> = Vec::new();
    let mut i: usize = 2;
    while i < n
        invariant
            chars@ == msg@,
            n == chars@.len(),
            rest == msg@.subrange(2, n as int),
            2 <= i <= n,
            slash_free(msg@.subrange(2, i as int)),
            name@ == without_dots(msg@.subrange(2, i as int)),
        decreases n - i,
    {
        let c = chars[i];
        if c == '/' {
            assert(rest[i as int - 2] == msg@[i as int]);
            assert(rest.contains('/'));
            return Incoming::Beat;
        }
        proof {
            let p = msg@.subrange(2, i as int);
            assert(msg@.subrange(2, i + 1) =~= p.push(c));
            p.lemma_filter_push(c, |c: char| c != '.');
            assert forall|j: int| 0 <= j < p.len() + 1 implies p.push(c)[j] != '/' by {
                if j < p.len() {
                    assert(!p.contains('/'));
                    assert(p[j] != '/');
                }
            }
            assert(!p.push(c).contains('/'));
        }
        if c != '.' {
            name.push(c);
        }
        i = i + 1;
    }
    Incoming::Sound(text_from_chars(&name))
}

} // verus!
