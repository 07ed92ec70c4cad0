use vstd::prelude::*;

verus! {

/// The fixed inbound routing prefix, as a sequence of characters.
pub open spec fn routing_prefix() -> Seq<char> {
    seq!['/', 'a', 'p', 'i']
}

/// What rewriting an inbound request path yields: the fixed routing prefix is
/// stripped; the bare prefix itself maps to the root path; a path that does
/// not start with the prefix is left unchanged.
pub open spec fn spec_rewrite_path(s: Seq<char>) -> Seq<char> {
    if s.len() >= 4 && s.subrange(0, 4) == routing_prefix() {
        if s.len() == 4 {
            seq!['/']
        } else {
            s.subrange(4, s.len() as int)
        }
    } else {
        s
    }
}

/// Strip the fixed routing prefix from an inbound request path, for use by a
/// reverse-proxy layer in front of the managed server.
pub fn rewrite_path(incoming_path: &str) -> (r: String)
    ensures
        r@ == spec_rewrite_path(incoming_path@),
{
    let n = incoming_path.unicode_len();
    if n >= 4 && incoming_path.get_char(0) == '/' && incoming_path.get_char(1) == 'a'
        && incoming_path.get_char(2) == 'p' && incoming_path.get_char(3) == 'i' {
        proof {
            assert(incoming_path@.subrange(0, 4) =~= routing_prefix());
        }
        if n == 4 {
            let root = String::from_str("/");
            proof {
                reveal_strlit("/");
                assert(root@ =~= seq!['/']);
            }
            root
        } else {
            let rest = incoming_path.substring_char(4, n);
            String::from_str(rest)
        }
    } else {
        incoming_path.to_owned()
    }
}

} // verus!
