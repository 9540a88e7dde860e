//! Tool calls: the call syntax with JSON as argument values.

use crate::calls;
use crate::json;
use crate::json::Json;
use crate::scan;
use crate::text;
use serde_json::Value;
use vstd::prelude::*;
use vstd::string::*;

verus! {

/// The value of an argument: its text read as JSON, or the text itself where it is not JSON.
pub open spec fn argument_value(source: Seq<char>) -> Json {
    match json::json_parse(source) {
        Some(value) => value,
        None => Json::Text(source),
    }
}

/// The members that arguments set, one after another; of arguments with one key the last counts.
pub open spec fn argument_members(args: Seq<calls::Argument>) -> Map<Seq<char>, Json>
    decreases args.len(),
{
    if args.len() == 0 {
        Map::empty()
    } else {
        argument_members(args.drop_last()).insert(args.last().0, argument_value(args.last().1))
    }
}

/// What a call says: its name, and its arguments as the compact text of a JSON object.
pub open spec fn parsed_call(call: Seq<char>) -> Option<(Seq<char>, Seq<char>)> {
    match calls::call_parts(call) {
        None => None,
        Some((name, args)) => Some(
            (name, json::json_text(Json::Object(argument_members(args)))),
        ),
    }
}

/// The value that was read from an argument's text, or the text itself where none was.
pub fn value_or_text(source: &str, read: Result<Value, serde_json::Error>) -> (r: Value)
    ensures
        match read {
            Ok(value) => r == value,
            Err(_) => json::json_of(r) == Json::Text(source@),
        },
{
    match read {
        Ok(value) => value,
        Err(_) => json::string_value(source.to_owned()),
    }
}

/// Parses one `name(key=value, ...)` call into its name and its arguments as a JSON object.
///
/// Reading the arguments gives the members that the call sets, where these hold no
/// floating-point number and the object of them is not nested deeper than JSON is read.
pub fn parse_call_syntax(call: &str) -> (r: Option<(String, String)>)
    ensures
        match r {
            Some((name, arguments)) => parsed_call(call@) == Some((name@, arguments@)),
            None => parsed_call(call@) is None,
        },
        r matches Some((_, arguments)) ==> {
            let m = argument_members((calls::call_parts(call@)->0).1);
            json::whole(Json::Object(m)) && json::within(Json::Object(m), json::MAX_DEPTH as nat)
                ==> argument_object(arguments@) == m
        },
{
    let (name, args) = match calls::split_call(call) {
        Some(parts) => parts,
        None => return None,
    };
    let n: usize = args.len();
    let mut map = serde_json::Map::new();
    let mut i: usize = 0;
    while i < n
        invariant
            i <= n,
            n == args@.len(),
            json::members(map) == argument_members(calls::pairs(args@).take(i as int)),
        decreases n - i,
    {
        proof {
            let upto = calls::pairs(args@).take(i + 1);
            assert(upto.drop_last() == calls::pairs(args@).take(i as int));
            assert(upto.last() == (args@[i as int].0@, args@[i as int].1@));
        }
        let source = args[i].1.as_str();
        let value = value_or_text(source, json::read_value(source));
        map.insert(args[i].0.clone(), value);
        i += 1;
    }
    assert(calls::pairs(args@).take(n as int) == calls::pairs(args@));
    Some((name, json::write_value(&json::object_value(map))))
}

/// The members of the object that `source` is the JSON text of; none for any other text.
pub open spec fn argument_object(source: Seq<char>) -> Map<Seq<char>, Json> {
    match json::json_parse(source) {
        Some(Json::Object(m)) => m,
        _ => Map::empty(),
    }
}

/// The members of an object as arguments: in the order of their keys, with compact JSON as
/// values.
pub open spec fn member_arguments(m: Map<Seq<char>, Json>) -> Seq<calls::Argument> {
    let keys = json::key_order(m);
    Seq::new(keys.len(), |i: int| (keys[i], json::json_text(m[keys[i]])))
}

/// The text of the call of `name` with the members of a JSON object as arguments.
pub open spec fn rendered_call(name: Seq<char>, arguments_json: Seq<char>) -> Seq<char> {
    calls::call_text(name, member_arguments(argument_object(arguments_json)))
}

/// A call that can be read back from its text.
pub open spec fn readable(name: Seq<char>, m: Map<Seq<char>, Json>) -> bool {
    &&& calls::plain_name(name)
    &&& forall|k: Seq<char>| m.dom().contains(k) ==> #[trigger] calls::plain_key(k)
}

/// Members whose values are the same when written and read again. Of the values that a text
/// can hold, all are that hold no floating-point number; of the others, some are.
pub open spec fn lossless(m: Map<Seq<char>, Json>) -> bool {
    forall|k: Seq<char>|
        m.dom().contains(k) ==> json::whole(#[trigger] m[k]) || json::json_parse(
            json::json_text(m[k]),
        ) == Some(m[k])
}

/// A call whose name and keys hold no line feed.
pub open spec fn single_line(name: Seq<char>, m: Map<Seq<char>, Json>) -> bool {
    &&& scan::one_line(name)
    &&& forall|k: Seq<char>| m.dom().contains(k) ==> #[trigger] scan::one_line(k)
}

/// Members that are read back one by one make up the object that they were written from.
proof fn lemma_members_back(m: Map<Seq<char>, Json>, n: int)
    requires
        json::lists_keys(json::key_order(m), m),
        0 <= n <= json::key_order(m).len(),
        forall|i: int|
            #![trigger json::key_order(m)[i]]
            0 <= i < json::key_order(m).len() ==> json::json_parse(
                json::json_text(m[json::key_order(m)[i]]),
            ) == Some(m[json::key_order(m)[i]]),
    ensures
        ({
            let back = argument_members(member_arguments(m).take(n));
            &&& forall|k: Seq<char>|
                back.dom().contains(k) <==> json::key_order(m).take(n).contains(k)
            &&& forall|k: Seq<char>| back.dom().contains(k) ==> back[k] == m[k]
        }),
    decreases n,
{
    let keys = json::key_order(m);
    let args = member_arguments(m);
    if n > 0 {
        lemma_members_back(m, n - 1);
        assert(args.take(n).drop_last() == args.take(n - 1));
        assert(keys.take(n) == keys.take(n - 1).push(keys[n - 1]));
        assert forall|k: Seq<char>| keys.take(n).contains(k) <==> (keys.take(n - 1).contains(k) || k
            == keys[n - 1]) by {
            if keys.take(n - 1).contains(k) {
                let i = keys.take(n - 1).lemma_contains_to_index(k);
                assert(keys.take(n)[i] == k);
            }
            assert(keys.take(n)[n - 1] == keys[n - 1]);
            if keys.take(n).contains(k) {
                let i = keys.take(n).lemma_contains_to_index(k);
                if i < n - 1 {
                    assert(keys.take(n - 1)[i] == k);
                }
            }
        }
    }
}

/// Renders `name(key1=value1, key2=value2, ...)` from a JSON object: the values are compact
/// JSON, and the arguments are joined by `", "`, in the order of their keys. Text that is no
/// JSON object has no arguments.
///
/// Parsing the rendered call gives back the name and the arguments.
pub fn render_one_call(name: &str, arguments_json: &str) -> (r: String)
    ensures
        r@ == rendered_call(name@, arguments_json@),
        json::lists_keys(
            json::key_order(argument_object(arguments_json@)),
            argument_object(arguments_json@),
        ),
        json::within(Json::Object(argument_object(arguments_json@)), json::MAX_DEPTH as nat),
        readable(name@, argument_object(arguments_json@)) ==> calls::call_parts(r@) == Some(
            (name@, member_arguments(argument_object(arguments_json@))),
        ),
        lossless(argument_object(arguments_json@)) ==> argument_members(
            member_arguments(argument_object(arguments_json@)),
        ) == argument_object(arguments_json@),
        readable(name@, argument_object(arguments_json@)) && lossless(
            argument_object(arguments_json@),
        ) ==> parsed_call(r@) == Some(
            (name@, json::json_text(Json::Object(argument_object(arguments_json@)))),
        ),
        single_line(name@, argument_object(arguments_json@)) ==> scan::one_line(r@),
{
    let mut args: Vec<(String, String)> = Vec::new();
    let ghost m = argument_object(arguments_json@);
    proof {
        json::lemma_key_order(Seq::empty(), Map::empty());
        assert(calls::pairs(args@) == member_arguments(Map::empty()));
    }
    if let Ok(value) = json::read_value(arguments_json) {
        if let Some(object) = value.as_object() {
            let entries = json::list_members(object);
            let n: usize = entries.len();
            let ghost keys = json::entry_keys(entries@);
            proof {
                json::lemma_key_order(keys, m);
            }
            let mut i: usize = 0;
            while i < n
                invariant
                    i <= n,
                    n == entries@.len(),
                    m == json::members(*object),
                    keys == json::entry_keys(entries@),
                    keys == json::key_order(m),
                    json::lists_keys(keys, m),
                    json::within(Json::Object(m), json::MAX_DEPTH as nat),
                    forall|j: int|
                        0 <= j < n ==> json::json_of(*(#[trigger] entries@[j]).1)
                            == m[entries@[j].0@],
                    calls::pairs(args@) == member_arguments(m).take(i as int),
                    forall|j: int|
                        #![trigger keys[j]]
                        0 <= j < i ==> {
                            &&& scan::standalone(json::json_text(m[keys[j]]))
                            &&& json::whole(m[keys[j]]) ==> json::json_parse(
                                json::json_text(m[keys[j]]),
                            ) == Some(m[keys[j]])
                        },
                decreases n - i,
            {
                let (key, item) = entries[i];
                assert(keys[i as int] == key@);
                let ghost done = args@;
                let written = json::write_value(item);
                proof {
                    json::lemma_member_within(m, key@, json::MAX_DEPTH as nat);
                }
                args.push((key.clone(), written));
                assert(calls::pairs(args@) == calls::pairs(done).push((key@, written@)));
                i += 1;
            }
            assert(member_arguments(m).take(n as int) == member_arguments(m));
        }
    }
    let r = calls::write_call(name, &args);
    proof {
        lemma_render_laws(name@, m);
    }
    r
}

/// What holds of a rendered call whose values can stand as the values of arguments.
proof fn lemma_render_laws(name: Seq<char>, m: Map<Seq<char>, Json>)
    requires
        json::lists_keys(json::key_order(m), m),
        forall|j: int|
            #![trigger json::key_order(m)[j]]
            0 <= j < json::key_order(m).len() ==> {
                let value = m[json::key_order(m)[j]];
                &&& scan::standalone(json::json_text(value))
                &&& json::whole(value) ==> json::json_parse(json::json_text(value)) == Some(value)
            },
    ensures
        ({
            let args = member_arguments(m);
            let call = calls::call_text(name, args);
            &&& readable(name, m) ==> calls::call_parts(call) == Some((name, args))
            &&& lossless(m) ==> argument_members(args) == m
            &&& readable(name, m) && lossless(m) ==> parsed_call(call) == Some(
                (name, json::json_text(Json::Object(m))),
            )
            &&& single_line(name, m) ==> scan::one_line(call)
        }),
{
    let keys = json::key_order(m);
    let args = member_arguments(m);
    if readable(name, m) {
        assert forall|i: int| 0 <= i < args.len() implies calls::plain_argument(args[i]) by {
            assert(m.dom().contains(keys[i]));
        }
        calls::law_write_then_split(name, args);
    }
    if lossless(m) {
        lemma_members_back(m, keys.len() as int);
        assert(args.take(keys.len() as int) == args);
        assert(keys.take(keys.len() as int) == keys);
        assert(argument_members(args) =~= m);
    }
    if single_line(name, m) {
        assert forall|i: int| 0 <= i < args.len() implies scan::one_line(args[i].0)
            && scan::one_line(args[i].1) by {
            assert(m.dom().contains(keys[i]));
        }
        calls::lemma_call_one_line(name, args);
    }
}

/// A parsed call has its name, and as arguments the object with one member for each key: the
/// value of the last argument with that key, which is what its text is read as where that is
/// JSON, whatever its layout, and the text itself only where it is not.
pub proof fn law_parsed_object(
    call: Seq<char>,
    name: Seq<char>,
    args: Seq<calls::Argument>,
    m: Map<Seq<char>, Json>,
)
    requires
        calls::call_parts(call) == Some((name, args)),
        forall|k: Seq<char>| #[trigger]
            m.dom().contains(k) ==> exists|i: int| 0 <= i < args.len() && (#[trigger] args[i]).0 == k,
        forall|i: int|
            0 <= i < args.len() && (forall|j: int| i < j < args.len() ==> args[j].0 != args[i].0)
                ==> m.dom().contains((#[trigger] args[i]).0) && match json::json_parse(args[i].1) {
                Some(value) => m[args[i].0] == value,
                None => m[args[i].0] == Json::Text(args[i].1),
            },
    ensures
        argument_members(args) == m,
        parsed_call(call) == Some((name, json::json_text(Json::Object(m)))),
{
    let got = argument_members(args);
    assert forall|k: Seq<char>| got.dom().contains(k) <==> m.dom().contains(k) by {
        if m.dom().contains(k) {
            let i = choose|i: int| 0 <= i < args.len() && (#[trigger] args[i]).0 == k;
            lemma_last_member(args, i);
        }
        if got.dom().contains(k) {
            let i = lemma_member_set(args, k);
            assert(m.dom().contains(args[i].0));
        }
    }
    assert forall|k: Seq<char>| got.dom().contains(k) implies got[k] == m[k] by {
        let i = lemma_member_set(args, k);
        assert(m.dom().contains(args[i].0));
    }
    assert(got =~= m);
}

/// A member was set by the last argument with its key.
proof fn lemma_member_set(args: Seq<calls::Argument>, k: Seq<char>) -> (i: int)
    requires
        argument_members(args).dom().contains(k),
    ensures
        0 <= i < args.len(),
        args[i].0 == k,
        argument_members(args)[k] == argument_value(args[i].1),
        forall|j: int| i < j < args.len() ==> args[j].0 != args[i].0,
    decreases args.len(),
{
    if args.len() == 0 {
        0
    } else if args.last().0 == k {
        args.len() - 1
    } else {
        let i = lemma_member_set(args.drop_last(), k);
        assert(args.drop_last()[i] == args[i]);
        assert forall|j: int| i < j < args.len() implies args[j].0 != args[i].0 by {
            if j < args.len() - 1 {
                assert(args.drop_last()[j] == args[j]);
            }
        }
        i
    }
}

/// Every argument sets a member.
proof fn lemma_last_member(args: Seq<calls::Argument>, i: int)
    requires
        0 <= i < args.len(),
    ensures
        argument_members(args).dom().contains(args[i].0),
    decreases args.len(),
{
    if i < args.len() - 1 {
        lemma_last_member(args.drop_last(), i);
    }
}

/// A call that cannot be read is not reported.
pub proof fn law_unreadable_call(call: Seq<char>)
    requires
        calls::call_parts(call) is None,
    ensures
        parsed_call(call) is None,
{
}

/// The arguments in a text are the members of the object that it is read as, and none where it
/// is read as anything else or is not JSON.
pub proof fn law_argument_object(source: Seq<char>)
    ensures
        forall|m: Map<Seq<char>, Json>|
            json::json_parse(source) == Some(Json::Object(m)) ==> argument_object(source) == m,
        (forall|m: Map<Seq<char>, Json>| json::json_parse(source) != Some(Json::Object(m)))
            ==> argument_object(source) == Map::<Seq<char>, Json>::empty(),
{
    if let Some(Json::Object(m)) = json::json_parse(source) {
        assert(json::json_parse(source) == Some(Json::Object(m)));
    }
}

/// A rendered call has its name and, in parentheses, for every member of the object that the
/// text of its arguments is read as, in the order of the keys, the key, an equals sign and the
/// value as compact JSON, with a comma and a space between them.
pub proof fn law_rendered_members(
    name: Seq<char>,
    source: Seq<char>,
    m: Map<Seq<char>, Json>,
    keys: Seq<Seq<char>>,
    parts: Seq<Seq<char>>,
)
    requires
        json::json_parse(source) == Some(Json::Object(m)),
        forall|i: int| 0 <= i < keys.len() ==> m.dom().contains(#[trigger] keys[i]),
        forall|k: Seq<char>| m.dom().contains(k) ==> #[trigger] keys.contains(k),
        forall|i: int, j: int| 0 <= i < j < keys.len() ==> text::precedes(keys[i], keys[j]),
        parts.len() == keys.len(),
        forall|i: int|
            0 <= i < keys.len() ==> #[trigger] parts[i] == keys[i] + seq!['='] + json::json_text(
                m[keys[i]],
            ),
    ensures
        rendered_call(name, source) == name + seq!['('] + text::join(parts, seq![',', ' ']) + seq![
            ')',
        ],
{
    json::lemma_key_order(keys, m);
    assert(calls::argument_texts(member_arguments(m)) == parts);
}

/// A call whose arguments are not the text of a JSON object is rendered without any.
pub proof fn law_rendered_bare(name: Seq<char>, source: Seq<char>)
    requires
        forall|m: Map<Seq<char>, Json>| json::json_parse(source) != Some(Json::Object(m)),
    ensures
        rendered_call(name, source) == name + seq!['(', ')'],
{
    law_argument_object(source);
    json::lemma_key_order(Seq::empty(), Map::empty());
    assert(member_arguments(Map::empty()) == Seq::<calls::Argument>::empty());
    calls::law_call_text_grows(name, Seq::empty(), (Seq::empty(), Seq::empty()));
}

} // verus!
