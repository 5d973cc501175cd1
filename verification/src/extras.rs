//! Small interface types around the evaluator: export formats, id-or-index
//! requests and the expression-language index names.
use crate::binding::EventOrObjectIndex;
use crate::outside::chars_vec;
use crate::text::{dec_digits, parse_i64_chars, parse_i64_spec};
use vstd::prelude::*;

verus! {

/// The wire format of an exported log.
#[derive(Debug, Clone, Copy, PartialEq, Eq, Structural)]
pub enum ExportFormat {
    XML,
    JSON,
    SQLITE,
}

impl ExportFormat {
    /// The file extension of the format.
    pub fn to_extension(&self) -> (r: &'static str)
        ensures
            r@ == extension_spec(*self),
    {
        match self {
            ExportFormat::XML => "xml",
            ExportFormat::JSON => "json",
            ExportFormat::SQLITE => "sqlite",
        }
    }
}

/// The file extension of each export format.
pub open spec fn extension_spec(f: ExportFormat) -> Seq<char> {
    match f {
        ExportFormat::XML => "xml"@,
        ExportFormat::JSON => "json"@,
        ExportFormat::SQLITE => "sqlite"@,
    }
}

/// A reference to an event or object by id or by dense index.
#[derive(Debug)]
pub enum IndexOrID {
    ID(String),
    Index(usize),
}

/// The index a prefixed name denotes: `ev_` marks an event index, `ob_` an
/// object index, anything else nothing.
pub open spec fn string_to_index_spec(s: Seq<char>) -> Option<EventOrObjectIndex> {
    if s.len() < 3 {
        None
    } else {
        let num = parse_i64_spec(s.skip(3));
        match num {
            Some(v) => if v < 0 || v > usize::MAX {
                None
            } else if s.subrange(0, 3) == "ev_"@ {
                Some(EventOrObjectIndex::Event(v as usize))
            } else if s.subrange(0, 3) == "ob_"@ {
                Some(EventOrObjectIndex::Object(v as usize))
            } else {
                None
            },
            None => None,
        }
    }
}

/// Reads a prefixed index name back into an event or object index; exactly
/// [`string_to_index_spec`].
pub fn string_to_index(s: &String) -> (r: Option<EventOrObjectIndex>)
    ensures
        r == string_to_index_spec(s@),
{
    let chars = chars_vec(s.as_str());
    let n = chars.len();
    if n < 3 {
        return None;
    }
    let mut rest: Vec<char> = Vec::new();
    let mut i: usize = 3;
    while i < n
        invariant
            n == chars@.len(),
            3 <= i <= n,
            rest@ =~= chars@.subrange(3, i as int),
        decreases n - i,
    {
        rest.push(chars[i]);
        proof {
            assert(rest@ =~= chars@.subrange(3, i + 1));
        }
        i = i + 1;
    }
    proof {
        assert(rest@ =~= chars@.skip(3));
    }
    let v = match parse_i64_chars(&rest) {
        Some(v) => v,
        None => {
            return None;
        },
    };
    if v < 0 {
        return None;
    }
    let vu: u64 = v as u64;
    if vu > usize::MAX as u64 {
        return None;
    }
    proof {
        reveal_strlit("ev_");
        reveal_strlit("ob_");
    }
    if chars[0] == 'e' && chars[1] == 'v' && chars[2] == '_' {
        proof {
            assert(chars@.subrange(0, 3) =~= "ev_"@);
        }
        Some(EventOrObjectIndex::Event(vu as usize))
    } else if chars[0] == 'o' && chars[1] == 'b' && chars[2] == '_' {
        proof {
            assert(chars@.subrange(0, 3) =~= "ob_"@);
            if chars@.subrange(0, 3) == "ev_"@ {
                assert(chars@.subrange(0, 3)[0] == "ev_"@[0]);
            }
        }
        Some(EventOrObjectIndex::Object(vu as usize))
    } else {
        proof {
            if chars@.subrange(0, 3) == "ev_"@ {
                assert(chars@.subrange(0, 3)[0] == "ev_"@[0]);
                assert(chars@.subrange(0, 3)[1] == "ev_"@[1]);
                assert(chars@.subrange(0, 3)[2] == "ev_"@[2]);
                assert(chars@[0] == 'e' && chars@[1] == 'v' && chars@[2] == '_');
            }
            if chars@.subrange(0, 3) == "ob_"@ {
                assert(chars@.subrange(0, 3)[0] == "ob_"@[0]);
                assert(chars@.subrange(0, 3)[1] == "ob_"@[1]);
                assert(chars@.subrange(0, 3)[2] == "ob_"@[2]);
                assert(chars@[0] == 'o' && chars@[1] == 'b' && chars@[2] == '_');
            }
        }
        None
    }
}

} // verus!
