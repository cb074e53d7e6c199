//! Reading the messages an application's loop receives from the system.
use vstd::prelude::*;
use vstd::utf8::encode_utf8;

use crate::flattenable::Flattenable;
use crate::message::{lookup, Message};
use crate::types::B_STRING_TYPE;

verus! {

/// The bytes of the field name "argv".
pub open spec fn argv_name() -> Seq<u8> {
    seq![0x61u8, 0x72u8, 0x67u8, 0x76u8]
}

/// The bytes of the field name "_internal".
pub open spec fn internal_name() -> Seq<u8> {
    seq![0x5fu8, 0x69u8, 0x6eu8, 0x74u8, 0x65u8, 0x72u8, 0x6eu8, 0x61u8, 0x6cu8]
}

/// How many strings reading the "argv" field gives: none when there is
/// no such field or it holds another type, else its values up to the first
/// that is not a string.
pub open spec fn argv_count_ok(m: Message, n: int) -> bool {
    match lookup(m@, argv_name()) {
        None => n == 0,
        Some(k) => if m@[k].type_code != B_STRING_TYPE {
            n == 0
        } else {
            &&& n <= m@[k].values.len()
            &&& n < m@[k].values.len() ==> !String::decodable(m@[k].values[n])
        },
    }
}

/// The command line carried by an arguments message: `None` when the
/// message is marked internal, meaning that the arguments are those of this
/// process; otherwise the strings of its "argv" field, in order, up to the
/// first that cannot be read.
pub fn parse_argv(message: &Message) -> (r: Option<Vec<String>>)
    ensures
        message.wf() ==> (r is None <==> ({
            let k = lookup(message@, internal_name())->0;
            &&& lookup(message@, internal_name()) is Some
            &&& message@[k].type_code == bool::spec_type_code()
            &&& message@[k].values.len() > 0
            &&& bool::decodable(message@[k].values[0])
            &&& message@[k].values[0][0] != 0
        })),
        message.wf() ==> (r matches Some(args) ==> argv_count_ok(*message, args@.len() as int)),
        message.wf() ==> (r matches Some(args) ==> {
            let k = lookup(message@, argv_name())->0;
            &&& args@.len() > 0 ==> lookup(message@, argv_name()) is Some
            &&& forall|i: int|
                #![trigger args@[i]]
                0 <= i < args@.len() ==> String::decodes_to(message@[k].values[i], args@[i])
        }),
{
    let internal_name_str = "_internal";
    let argv_name_str = "argv";
    proof {
        reveal_strlit("_internal");
        reveal_strlit("argv");
        assert(encode_utf8(internal_name_str@) == internal_name()) by {
            assert(internal_name_str@ == seq!['_', 'i', 'n', 't', 'e', 'r', 'n', 'a', 'l']);
            vstd::string::is_ascii_spec_bytes(internal_name_str);
            assert(vstd::string::is_ascii(internal_name_str));
            assert(encode_utf8(internal_name_str@) =~= internal_name());
        }
        assert(encode_utf8(argv_name_str@) == argv_name()) by {
            assert(argv_name_str@ == seq!['a', 'r', 'g', 'v']);
            vstd::string::is_ascii_spec_bytes(argv_name_str);
            assert(vstd::string::is_ascii(argv_name_str));
            assert(encode_utf8(argv_name_str@) =~= argv_name());
        }
    }
    let internal = match message.find_data::<bool>(internal_name_str, 0) {
        Ok(b) => b,
        Err(_) => false,
    };
    if internal {
        return None;
    }
    let count = match message.get_info(argv_name_str) {
        Some(info) => info.1,
        None => 0,
    };
    proof {
        if message.wf() {
            crate::message::lemma_lookup_some(message@, argv_name());
            if lookup(message@, argv_name()) is Some {
                crate::message_edit::lemma_values_len(message, lookup(message@, argv_name())->0);
                crate::message::lemma_wf_layout(message);
            }
        }
    }
    let mut argv: Vec<String> = Vec::new();
    let mut i: usize = 0;
    let mut stop = false;
    while i < count && !stop
        invariant
            i <= count,
            argv@.len() == i,
            encode_utf8(argv_name_str@) == argv_name(),
            message.wf() && i > 0 ==> lookup(message@, argv_name()) is Some,
            message.wf() ==> (match lookup(message@, argv_name()) {
                None => count == 0,
                Some(k) => {
                    &&& count == message@[k].values.len()
                    &&& message@[k].type_code != B_STRING_TYPE ==> i == 0
                    &&& stop ==> (message@[k].type_code == B_STRING_TYPE ==> i < count
                        && !String::decodable(message@[k].values[i as int]))
                },
            }),
            message.wf() ==> forall|j: int|
                #![trigger argv@[j]]
                0 <= j < i ==> String::decodes_to(
                    message@[lookup(message@, argv_name())->0].values[j],
                    argv@[j],
                ),
        decreases count - i + (if stop { 0int } else { 1int }),
    {
        match message.find_data::<String>(argv_name_str, i) {
            Ok(arg) => {
                let ghost before = argv@;
                argv.push(arg);
                proof {
                    if message.wf() {
                        crate::message::lemma_lookup_some(message@, argv_name());
                        assert forall|j: int| #![trigger argv@[j]] 0 <= j < i + 1 implies String::decodes_to(
                            message@[lookup(message@, argv_name())->0].values[j],
                            argv@[j],
                        ) by {
                            if j < i {
                                assert(String::decodes_to(message@[lookup(message@, argv_name())->0].values[j], before[j]));
                                assert(argv@[j] == before[j]);
                            }
                        }
                    }
                }
                i = i + 1;
            },
            Err(_) => {
                stop = true;
            },
        }
    }
    proof {
        if message.wf() {
            assert(argv_count_ok(*message, argv@.len() as int));
        }
    }
    let r = Some(argv);
    r
}

} // verus!
