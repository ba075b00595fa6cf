//! The module registry: the built-in modules the scanner can populate.
//! Each module derives a typed value tree from the scanned data; the scan
//! engine inserts that tree into the context's root structure under the
//! module's name.

use vstd::prelude::*;
use crate::olecf::{OLECFParser, spec_header_accepts};
use crate::pool::BStringPool;
use crate::rules::is_builtin_module;
use crate::values::{RuntimeStruct, RuntimeValue, spec_field_index};

verus! {

/// What the scan engine records for an imported module: a well-formed
/// value tree whose `is_olecf` field reports whether the scanned data
/// parses as a compound file.
pub open spec fn spec_module_tree_ok(v: RuntimeValue, data: Seq<u8>) -> bool {
    match v {
        RuntimeValue::Struct(t) => {
            &&& t.wf()
            &&& crate::values::spec_field_index(t.fields(), "is_olecf"@) >= 0
            &&& t.fields()[crate::values::spec_field_index(t.fields(), "is_olecf"@)].1
                == RuntimeValue::Bool(spec_header_accepts(data))
        },
        _ => false,
    }
}

/// Whether the registry knows a module by this name.
pub fn is_builtin(name: &String) -> (r: bool)
    ensures
        r == is_builtin_module(name@),
{
    let olecf: String = "olecf".to_owned();
    *name == olecf
}

/// Runs the named built-in module's main function on the scanned data.
///
/// The only registered module is `olecf`: its tree reports under
/// `is_olecf` whether the buffer parses as a compound file, under
/// `number_of_streams` how many directory entries were found, and under
/// `stream_names` the entry names, interned in the scan's string pool.
/// An unknown name yields nothing.
pub fn module_main(name: &String, data: &[u8], pool: &mut BStringPool) -> (r: Option<
    RuntimeStruct,
>)
    requires
        old(pool).wf(),
    ensures
        final(pool).wf(),
        r is Some <==> is_builtin_module(name@),
        r is Some ==> {
            let t = r->0;
            &&& t.wf()
            &&& crate::values::spec_field_index(t.fields(), "is_olecf"@) >= 0
            &&& t.fields()[crate::values::spec_field_index(t.fields(), "is_olecf"@)].1
                == RuntimeValue::Bool(spec_header_accepts(data@))
        },
        r is Some ==> spec_module_tree_ok(RuntimeValue::Struct(r->0), data@),
{
    if !is_builtin(name) {
        return None;
    }
    let mut parsed = false;
    let mut count64: i64 = 0;
    let mut names: Vec<RuntimeValue> = Vec::new();
    match OLECFParser::new(data) {
        Ok(parser) => {
            parsed = true;
            let streams = parser.get_streams();
            let count = streams.len();
            count64 = if count as u64 <= i64::MAX as u64 {
                count as i64
            } else {
                i64::MAX
            };
            let mut k: usize = 0;
            while k < count
                invariant
                    pool.wf(),
                    count == streams@.len(),
                    k <= count,
                decreases count - k,
            {
                if pool.len() < u32::MAX as usize {
                    let id = pool.get_or_intern(streams[k].name.as_str().as_bytes());
                    names.push(RuntimeValue::String(id));
                }
                k = k + 1;
            }
        },
        Err(_) => {},
    }
    let mut tree = RuntimeStruct::new();
    tree.insert("is_olecf".to_owned(), RuntimeValue::Bool(parsed));
    tree.insert("number_of_streams".to_owned(), RuntimeValue::Int(count64));
    tree.insert("stream_names".to_owned(), RuntimeValue::Array(names));
    proof {
        reveal_strlit("is_olecf");
        reveal_strlit("number_of_streams");
        reveal_strlit("stream_names");
        reveal_with_fuel(crate::values::spec_field_index, 5);
        assert(("is_olecf"@).len() == 8);
        assert(("number_of_streams"@).len() == 17);
        assert(("stream_names"@).len() == 12);
        assert("number_of_streams"@ != "is_olecf"@);
        assert("stream_names"@ != "is_olecf"@);
        assert(tree.fields().len() == 3);
        assert(tree.fields()[0].0@ == "is_olecf"@);
        assert(spec_field_index(tree.fields(), "is_olecf"@) == 0);
        assert(tree.fields()[0].1 == RuntimeValue::Bool(spec_header_accepts(data@)));
    }
    Some(tree)
}

} // verus!
