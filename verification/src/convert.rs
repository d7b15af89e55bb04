//! Mapping REST operation identifiers onto mesh command and event names.
//!
//! A `PascalCase` operation identifier such as `CreateEmergencyActionMessage`
//! becomes the command `emergency_action_message.create`; each command in
//! turn yields the event published when it takes effect. The surrounding
//! document handling — reading a REST description, writing the mesh
//! contract — is plumbing outside this crate's scope.
use crate::util::{contains_sub, prefix_of, str_contains, str_eq, str_starts_with};
use vstd::prelude::*;

verus! {

broadcast use vstd::string::group_string_axioms;

/// One successful identifier mapping.
pub struct MappingRow {
    pub operation_id: String,
    pub command_operation: String,
}

/// One identifier that could not be mapped, with the reason.
pub struct WarningRow {
    pub operation_id: String,
    pub reason: String,
}

/// How the conversion fails.
#[derive(Debug)]
pub enum ConvertError {
    /// The named profile is not known.
    UnsupportedProfile,
}

/// Whether the character has Unicode's Uppercase property; the name of
/// what `char::is_uppercase` returns.
pub uninterp spec fn is_uppercase_char(c: char) -> bool;

/// The lowercase mapping of a character, which depends on the character
/// alone; the name of what `char::to_lowercase` yields.
pub uninterp spec fn lower_chars_of(c: char) -> Seq<char>;

/// Relies on `char::is_uppercase`: the Uppercase property test.
#[verifier::external_body]
fn char_is_uppercase(c: char) -> (r: bool)
    ensures
        r == is_uppercase_char(c),
{
    c.is_uppercase()
}

/// Relies on `char::to_lowercase`: the lowercase mapping, a function of
/// the character alone.
#[verifier::external_body]
fn char_to_lowercase(c: char) -> (r: Vec<char>)
    ensures
        r@ == lower_chars_of(c),
{
    c.to_lowercase().collect()
}

/// What one character contributes to the snake_case rendering at
/// position `i`: uppercase characters gain a leading underscore (except
/// at the front) and are lowercased.
pub open spec fn snake_piece(s: Seq<char>, i: int) -> Seq<char> {
    if is_uppercase_char(s[i]) {
        (if i > 0 {
            seq!['_']
        } else {
            Seq::empty()
        }) + lower_chars_of(s[i])
    } else {
        seq![s[i]]
    }
}

/// The snake_case rendering of the first `n` characters.
pub open spec fn snake_prefix(s: Seq<char>, n: int) -> Seq<char>
    decreases n,
{
    if n <= 0 {
        Seq::empty()
    } else {
        snake_prefix(s, n - 1) + snake_piece(s, n - 1)
    }
}

/// The snake_case rendering of a whole identifier.
pub open spec fn snake_of(s: Seq<char>) -> Seq<char> {
    snake_prefix(s, s.len() as int)
}

/// Renders a `PascalCase` identifier in snake_case: an underscore before
/// every uppercase character except the first, all characters lowercased.
#[verifier::loop_isolation(false)]
pub fn pascal_to_snake(input: &str) -> (r: String)
    ensures
        r@ == snake_of(input@),
{
    let n = input.unicode_len();
    let mut out = String::new();
    let mut i: usize = 0;
    while i < n
        invariant
            i <= n,
            n == input@.len(),
            out@ == snake_prefix(input@, i as int),
        decreases n - i,
    {
        let c = input.get_char(i);
        if char_is_uppercase(c) {
            if i > 0 {
                out.push('_');
            }
            let ghost hdr = out@;
            proof {
                if i > 0 {
                    assert(hdr =~= snake_prefix(input@, i as int) + seq!['_']);
                } else {
                    assert(hdr =~= snake_prefix(input@, i as int) + Seq::<char>::empty());
                }
            }
            let lows = char_to_lowercase(c);
            let m = lows.len();
            let mut j: usize = 0;
            while j < m
                invariant
                    j <= m,
                    m == lows@.len(),
                    out@ == hdr + lows@.subrange(0, j as int),
                decreases m - j,
            {
                let lc = *vstd::std_specs::vec::vec_index(&lows, j);
                out.push(lc);
                proof {
                    assert(out@ =~= hdr + lows@.subrange(0, j + 1));
                }
                j = j + 1;
            }
            proof {
                assert(lows@.subrange(0, m as int) =~= lows@);
                assert(out@ =~= snake_prefix(input@, i + 1));
            }
        } else {
            out.push(c);
            proof {
                assert(out@ =~= snake_prefix(input@, i + 1));
            }
        }
        i = i + 1;
    }
    out
}

/// The command name derived from an identifier with the given prefix
/// stripped: the remainder in snake_case, a dot, and the action.
pub open spec fn mapped_with(s: Seq<char>, p: Seq<char>, action: Seq<char>) -> Option<Seq<char>> {
    let rest = s.subrange(p.len() as int, s.len() as int);
    if rest.len() == 0 {
        Option::None
    } else {
        Option::Some(snake_of(rest) + seq!['.'] + action)
    }
}

/// The command an operation identifier maps to, if its verb prefix is
/// recognized: the entity in snake_case, then the action.
pub open spec fn mapped_operation(s: Seq<char>) -> Option<Seq<char>> {
    if prefix_of(s, "Create"@) {
        mapped_with(s, "Create"@, "create"@)
    } else if prefix_of(s, "List"@) {
        mapped_with(s, "List"@, "list"@)
    } else if prefix_of(s, "Put"@) {
        mapped_with(s, "Put"@, "put"@)
    } else if prefix_of(s, "Retrieve"@) {
        mapped_with(s, "Retrieve"@, "retrieve"@)
    } else if prefix_of(s, "Delete"@) {
        mapped_with(s, "Delete"@, "delete"@)
    } else if prefix_of(s, "Stream"@) {
        mapped_with(s, "Stream"@, "stream"@)
    } else {
        Option::None
    }
}

/// Builds the command for a recognized prefix.
fn build_mapped(operation_id: &str, prefix: &str, action: &str) -> (r: Option<String>)
    requires
        prefix_of(operation_id@, prefix@),
    ensures
        (match r {
            Option::Some(x) => mapped_with(operation_id@, prefix@, action@) == Option::Some(x@),
            Option::None => mapped_with(operation_id@, prefix@, action@) is None,
        }),
{
    let n = operation_id.unicode_len();
    let k = prefix.unicode_len();
    let rest = operation_id.substring_char(k, n);
    if rest.unicode_len() == 0 {
        return None;
    }
    let mut out = pascal_to_snake(rest);
    out.push('.');
    out.append(action);
    proof {
        assert(out@ =~= snake_of(rest@) + seq!['.'] + action@);
    }
    Some(out)
}

/// Maps one REST operation identifier onto a mesh command name, when its
/// verb prefix is one of the six recognized ones and an entity follows.
pub fn map_operation_id(operation_id: &str) -> (r: Option<String>)
    ensures
        (match r {
            Option::Some(x) => mapped_operation(operation_id@) == Option::Some(x@),
            Option::None => mapped_operation(operation_id@) is None,
        }),
{
    if str_starts_with(operation_id, "Create") {
        build_mapped(operation_id, "Create", "create")
    } else if str_starts_with(operation_id, "List") {
        build_mapped(operation_id, "List", "list")
    } else if str_starts_with(operation_id, "Put") {
        build_mapped(operation_id, "Put", "put")
    } else if str_starts_with(operation_id, "Retrieve") {
        build_mapped(operation_id, "Retrieve", "retrieve")
    } else if str_starts_with(operation_id, "Delete") {
        build_mapped(operation_id, "Delete", "delete")
    } else if str_starts_with(operation_id, "Stream") {
        build_mapped(operation_id, "Stream", "stream")
    } else {
        None
    }
}

/// The position after the last dot of `s` before index `i`, or zero.
pub open spec fn rfind_dot(s: Seq<char>, i: int) -> int
    decreases i,
{
    if i <= 0 {
        -1
    } else if s[i - 1] == '.' {
        i - 1
    } else {
        rfind_dot(s, i - 1)
    }
}

/// Whether the command name carries a dot.
pub open spec fn has_dot(s: Seq<char>) -> bool {
    rfind_dot(s, s.len() as int) >= 0
}

/// The event published when a command takes effect: the entity keeps its
/// name; create, put and delete map to created, updated and deleted, and
/// any other action to changed.
pub open spec fn event_of(s: Seq<char>) -> Seq<char> {
    let k = rfind_dot(s, s.len() as int);
    let entity = s.subrange(0, k);
    let action = s.subrange(k + 1, s.len() as int);
    entity + (if action == "create"@ {
        ".created"@
    } else if action == "put"@ {
        ".updated"@
    } else if action == "delete"@ {
        ".deleted"@
    } else {
        ".changed"@
    })
}

/// Finds the index of the last dot, if any.
#[verifier::loop_isolation(false)]
fn rfind_dot_exec(s: &str) -> (r: Option<usize>)
    ensures
        (match r {
            Option::Some(k) => rfind_dot(s@, s@.len() as int) == k as int && k < s@.len(),
            Option::None => rfind_dot(s@, s@.len() as int) == -1,
        }),
{
    let n = s.unicode_len();
    let mut i: usize = n;
    while i > 0
        invariant
            i <= n,
            n == s@.len(),
            rfind_dot(s@, n as int) == rfind_dot(s@, i as int),
        decreases i,
    {
        let c = s.get_char(i - 1);
        if c == '.' {
            return Some(i - 1);
        }
        i = i - 1;
    }
    None
}

/// Derives the event name for one command.
fn event_for(command: &str) -> (r: Option<String>)
    ensures
        (match r {
            Option::Some(x) => has_dot(command@) && x@ == event_of(command@),
            Option::None => !has_dot(command@),
        }),
{
    let n = command.unicode_len();
    let k = match rfind_dot_exec(command) {
        Some(k) => k,
        None => {
            return None;
        }
    };
    let entity = command.substring_char(0, k);
    let action = command.substring_char(k + 1, n);
    let mut out = String::from_str(entity);
    if str_eq(action, "create") {
        out.append(".created");
    } else if str_eq(action, "put") {
        out.append(".updated");
    } else if str_eq(action, "delete") {
        out.append(".deleted");
    } else {
        out.append(".changed");
    }
    Some(out)
}

/// Whether some element of `s` reads `x`.
pub open spec fn has_view(s: Seq<String>, x: Seq<char>) -> bool {
    exists|i: int| 0 <= i < s.len() && (#[trigger] s[i])@ == x
}

/// Strictly ascending lexicographic order over string views.
pub open spec fn views_sorted(s: Seq<String>) -> bool {
    forall|i: int, j: int|
        0 <= i < j < s.len() ==> crate::codec::lex_lt((#[trigger] s[i])@, (#[trigger] s[j])@)
}

/// Looks for `event` in a strictly sorted vector: either its position
/// (a duplicate) or the position at which it slots in.
#[verifier::loop_isolation(false)]
fn find_event_pos(out: &Vec<String>, event: &String) -> (r: (bool, usize))
    requires
        views_sorted(out@),
    ensures
        r.0 ==> r.1 < out@.len() && (#[trigger] out@[r.1 as int])@ == event@,
        !r.0 ==> r.1 <= out@.len() && (forall|q: int|
            0 <= q < r.1 ==> crate::codec::lex_lt((#[trigger] out@[q])@, event@)) && (forall|
            q: int,
        |
            r.1 <= q < out@.len() ==> crate::codec::lex_lt(event@, (#[trigger] out@[q])@)),
{
    let mut pos: usize = 0;
    while pos < out.len()
        invariant
            pos <= out@.len(),
            forall|q: int| 0 <= q < pos ==> crate::codec::lex_lt((#[trigger] out@[q])@, event@),
        decreases out@.len() - pos,
    {
        let probe = vstd::std_specs::vec::vec_index(out, pos);
        if str_eq(probe.as_str(), event.as_str()) {
            return (true, pos);
        }
        if !crate::codec::str_lt(probe.as_str(), event.as_str()) {
            proof {
                crate::codec::lemma_lex_lt_connected(out@[pos as int]@, event@);
                assert(crate::codec::lex_lt(event@, out@[pos as int]@));
                assert forall|q: int|
                    pos <= q < out@.len() implies crate::codec::lex_lt(
                    event@,
                    (#[trigger] out@[q])@,
                ) by {
                    if q > pos {
                        crate::codec::lemma_lex_lt_trans(event@, out@[pos as int]@, out@[q]@);
                    }
                }
            }
            return (false, pos);
        }
        pos = pos + 1;
    }
    (false, pos)
}

/// Inserts one event into a strictly sorted vector, keeping it sorted and
/// dropping a duplicate: afterwards the vector holds exactly its old
/// views plus this one.
#[verifier::loop_isolation(false)]
fn insert_event(out: &mut Vec<String>, event: String)
    requires
        views_sorted(old(out)@),
    ensures
        views_sorted(final(out)@),
        forall|x: Seq<char>|
            #[trigger] has_view(final(out)@, x) <==> (has_view(old(out)@, x) || x == event@),
{
    let ghost ev = event@;
    let ghost before = out@;
    let (duplicate, pos) = find_event_pos(out, &event);
    if duplicate {
        proof {
            assert forall|x: Seq<char>|
                #[trigger] has_view(out@, x) <==> (has_view(before, x) || x == ev) by {
                if x == ev {
                    assert(out@[pos as int]@ == x);
                }
            }
        }
        return ;
    }
    out.insert(pos, event);
    proof {
        let pi = pos as int;
        assert forall|i: int, j: int|
            0 <= i < j < out@.len() implies crate::codec::lex_lt(
            (#[trigger] out@[i])@,
            (#[trigger] out@[j])@,
        ) by {
            if i < pi && j < pi {
                assert(out@[i] == before[i] && out@[j] == before[j]);
            } else if i < pi && j == pi {
                assert(out@[i] == before[i]);
            } else if i < pi && j > pi {
                assert(out@[i] == before[i] && out@[j] == before[j - 1]);
            } else if i == pi && j > pi {
                assert(out@[j] == before[j - 1]);
            } else {
                assert(out@[i] == before[i - 1] && out@[j] == before[j - 1]);
            }
        }
        assert forall|x: Seq<char>|
            #[trigger] has_view(out@, x) implies (has_view(before, x) || x == ev) by {
            let w = choose|i: int| 0 <= i < out@.len() && (#[trigger] out@[i])@ == x;
            if w < pi {
                assert(before[w]@ == x);
            } else if w > pi {
                assert(before[w - 1]@ == x);
            }
        }
        assert forall|x: Seq<char>|
            has_view(before, x) || x == ev implies #[trigger] has_view(out@, x) by {
            if x == ev {
                assert(out@[pi]@ == x);
            } else {
                let w = choose|i: int| 0 <= i < before.len() && (#[trigger] before[i])@ == x;
                if w < pi {
                    assert(out@[w]@ == x);
                } else {
                    assert(out@[w + 1]@ == x);
                }
            }
        }
    }
}

/// Derives the events for a batch of commands: one event per distinct
/// derived name, in ascending lexicographic order, from the commands
/// that carry a dot.
#[verifier::loop_isolation(false)]
pub fn derive_events(commands: &Vec<String>) -> (r: Vec<String>)
    ensures
        views_sorted(r@),
        forall|x: Seq<char>|
            #[trigger] has_view(r@, x) <==> (exists|c: int|
                0 <= c < commands@.len() && has_dot((#[trigger] commands@[c])@) && x == event_of(
                    commands@[c]@,
                )),
{
    let mut out: Vec<String> = Vec::new();
    let n = commands.len();
    let mut ci: usize = 0;
    while ci < n
        invariant
            ci <= n,
            n == commands@.len(),
            views_sorted(out@),
            forall|x: Seq<char>|
                #[trigger] has_view(out@, x) <==> (exists|c: int|
                    0 <= c < ci && has_dot((#[trigger] commands@[c])@) && x == event_of(
                        commands@[c]@,
                    )),
        decreases n - ci,
    {
        let command = vstd::std_specs::vec::vec_index(commands, ci);
        let ghost before = out@;
        match event_for(command.as_str()) {
            Some(event) => {
                let ghost ev = event@;
                insert_event(&mut out, event);
                proof {
                    assert(ev == event_of(commands@[ci as int]@));
                    assert(has_dot(commands@[ci as int]@));
                    assert forall|x: Seq<char>|
                        #[trigger] has_view(out@, x) <==> (exists|c: int|
                            0 <= c < ci + 1 && has_dot((#[trigger] commands@[c])@) && x
                                == event_of(commands@[c]@)) by {
                        if has_view(out@, x) {
                            if x == ev {
                                assert(has_dot(commands@[ci as int]@) && x == event_of(
                                    commands@[ci as int]@,
                                ));
                            }
                        }
                        if exists|c: int|
                            0 <= c < ci + 1 && has_dot((#[trigger] commands@[c])@) && x
                                == event_of(commands@[c]@) {
                            let c = choose|c: int|
                                0 <= c < ci + 1 && has_dot((#[trigger] commands@[c])@) && x
                                    == event_of(commands@[c]@);
                            if c < ci {
                                assert(has_view(before, x));
                            } else {
                                assert(x == ev);
                            }
                        }
                    }
                }
            }
            None => {
                proof {
                    assert(!has_dot(commands@[ci as int]@));
                    assert forall|x: Seq<char>|
                        #[trigger] has_view(out@, x) <==> (exists|c: int|
                            0 <= c < ci + 1 && has_dot((#[trigger] commands@[c])@) && x
                                == event_of(commands@[c]@)) by {
                        if exists|c: int|
                            0 <= c < ci + 1 && has_dot((#[trigger] commands@[c])@) && x
                                == event_of(commands@[c]@) {
                            let c = choose|c: int|
                                0 <= c < ci + 1 && has_dot((#[trigger] commands@[c])@) && x
                                    == event_of(commands@[c]@);
                            assert(c < ci);
                        }
                    }
                }
            }
        }
        ci = ci + 1;
    }
    out
}

/// The input with any leading byte-order marks removed.
pub open spec fn strip_bom(s: Seq<char>) -> Seq<char>
    decreases s.len(),
{
    if s.len() > 0 && s[0] == '\u{feff}' {
        strip_bom(s.subrange(1, s.len() as int))
    } else {
        s
    }
}

/// The input with every carriage-return-line-feed pair replaced by a
/// bare line feed, left to right.
pub open spec fn replace_crlf(s: Seq<char>) -> Seq<char>
    decreases s.len(),
{
    if s.len() == 0 {
        Seq::empty()
    } else if s.len() >= 2 && s[0] == '\r' && s[1] == '\n' {
        seq!['\n'] + replace_crlf(s.subrange(2, s.len() as int))
    } else {
        seq![s[0]] + replace_crlf(s.subrange(1, s.len() as int))
    }
}

/// Normalizes generated text for comparison: strips a leading byte-order
/// mark and converts Windows line endings.
#[verifier::loop_isolation(false)]
pub fn normalize_newlines(input: &str) -> (r: String)
    ensures
        r@ == replace_crlf(strip_bom(input@)),
{
    let n = input.unicode_len();
    let mut i: usize = 0;
    proof {
        assert(input@.subrange(0, n as int) =~= input@);
    }
    while i < n && input.get_char(i) == '\u{feff}'
        invariant
            i <= n,
            n == input@.len(),
            strip_bom(input@) == strip_bom(input@.subrange(i as int, n as int)),
        decreases n - i,
    {
        proof {
            let cur = input@.subrange(i as int, n as int);
            assert(cur[0] == input@[i as int]);
            assert(cur.subrange(1, cur.len() as int) =~= input@.subrange(i + 1, n as int));
        }
        i = i + 1;
    }
    proof {
        let cur = input@.subrange(i as int, n as int);
        if cur.len() > 0 {
            assert(cur[0] == input@[i as int]);
        }
        assert(strip_bom(input@) == cur);
    }
    let ghost body = input@.subrange(i as int, n as int);
    let mut out = String::new();
    let mut pos: usize = i;
    while pos < n
        invariant
            i <= pos <= n,
            n == input@.len(),
            body == input@.subrange(i as int, n as int),
            replace_crlf(body) == out@ + replace_crlf(input@.subrange(pos as int, n as int)),
        decreases n - pos,
    {
        let ghost cur = input@.subrange(pos as int, n as int);
        proof {
            assert(cur[0] == input@[pos as int]);
            if cur.len() >= 2 {
                assert(cur[1] == input@[pos + 1]);
            }
            assert(cur.subrange(1, cur.len() as int) =~= input@.subrange(pos + 1, n as int));
            if cur.len() >= 2 {
                assert(cur.subrange(2, cur.len() as int) =~= input@.subrange(pos + 2, n as int));
            }
        }
        let c = input.get_char(pos);
        if c == '\r' && pos + 1 < n && input.get_char(pos + 1) == '\n' {
            out.push('\n');
            proof {
                assert(out@ + replace_crlf(input@.subrange(pos + 2, n as int)) =~= (out@.drop_last()
                    + (seq!['\n'] + replace_crlf(input@.subrange(pos + 2, n as int)))));
            }
            pos = pos + 2;
        } else {
            out.push(c);
            proof {
                assert(out@ + replace_crlf(input@.subrange(pos + 1, n as int)) =~= (out@.drop_last()
                    + (seq![cur[0]] + replace_crlf(input@.subrange(pos + 1, n as int)))));
            }
            pos = pos + 1;
        }
    }
    proof {
        assert(input@.subrange(n as int, n as int).len() == 0);
        assert(out@ + replace_crlf(input@.subrange(n as int, n as int)) =~= out@);
    }
    out
}

/// The position after the last slash of `s`, or zero.
pub open spec fn rfind_slash(s: Seq<char>, i: int) -> int
    decreases i,
{
    if i <= 0 {
        -1
    } else if s[i - 1] == '/' {
        i - 1
    } else {
        rfind_slash(s, i - 1)
    }
}

/// The final path component.
pub open spec fn file_name_of(s: Seq<char>) -> Seq<char> {
    s.subrange(rfind_slash(s, s.len() as int) + 1, s.len() as int)
}

/// Recognizes the one supported conversion profile from the input file's
/// name.
#[verifier::loop_isolation(false)]
pub fn detect_profile_from_path(path: &str) -> (r: Option<&'static str>)
    ensures
        (match r {
            Option::Some(p) => p@ == "emergency-management"@ && contains_sub(
                file_name_of(path@),
                "EmergencyActionMessageManagement-OAS"@,
            ),
            Option::None => !contains_sub(
                file_name_of(path@),
                "EmergencyActionMessageManagement-OAS"@,
            ),
        }),
{
    let n = path.unicode_len();
    let mut i: usize = n;
    while i > 0
        invariant
            i <= n,
            n == path@.len(),
            rfind_slash(path@, n as int) == rfind_slash(path@, i as int),
        decreases i,
    {
        let c = path.get_char(i - 1);
        if c == '/' {
            break ;
        }
        i = i - 1;
    }
    proof {
        if i > 0 {
            assert(rfind_slash(path@, i as int) == i - 1);
        }
        assert(rfind_slash(path@, n as int) + 1 == i);
    }
    let candidate = path.substring_char(i, n);
    if str_contains(candidate, "EmergencyActionMessageManagement-OAS") {
        Some("emergency-management")
    } else {
        None
    }
}

/// The operations the emergency-management profile expects.
pub open spec fn expected_profile_ops() -> Seq<Seq<char>> {
    seq![
        "CreateEmergencyActionMessage"@,
        "ListEmergencyActionMessage"@,
        "PutEmergencyActionMessage"@,
        "RetrieveEmergencyActionMessage"@,
        "DeleteEmergencyActionMessage"@,
        "CreateEvent"@,
        "ListEvent"@,
        "PutEvent"@,
        "RetrieveEvent"@,
        "DeleteEvent"@,
        "StreamNotifications"@,
    ]
}

/// Whether a mapping for this operation identifier is present.
pub open spec fn has_mapping_for(ms: Seq<MappingRow>, op: Seq<char>) -> bool {
    exists|i: int| 0 <= i < ms.len() && (#[trigger] ms[i]).operation_id@ == op
}

/// The warning noted for each expected operation that has no mapping.
pub open spec fn profile_warning_reason() -> Seq<char> {
    "missing operation required by emergency-management profile"@
}

/// The expected operations up to position `n` that have no mapping.
pub open spec fn missing_ops(ms: Seq<MappingRow>, n: int) -> Seq<Seq<char>>
    decreases n,
{
    if n <= 0 {
        Seq::empty()
    } else {
        missing_ops(ms, n - 1) + (if has_mapping_for(ms, expected_profile_ops()[n - 1]) {
            Seq::empty()
        } else {
            seq![expected_profile_ops()[n - 1]]
        })
    }
}

/// The views of a warning list.
pub open spec fn warning_views(s: Seq<WarningRow>) -> Seq<(Seq<char>, Seq<char>)> {
    Seq::new(s.len(), |i: int| (s[i].operation_id@, s[i].reason@))
}

/// Whether a mapping for this identifier is present.
fn has_mapping(mappings: &Vec<MappingRow>, op: &str) -> (r: bool)
    ensures
        r == has_mapping_for(mappings@, op@),
{
    let n = mappings.len();
    let mut i: usize = 0;
    while i < n
        invariant
            i <= n,
            n == mappings@.len(),
            forall|j: int| 0 <= j < i ==> (#[trigger] mappings@[j]).operation_id@ != op@,
        decreases n - i,
    {
        if str_eq(vstd::std_specs::vec::vec_index(mappings, i).operation_id.as_str(), op) {
            return true;
        }
        i = i + 1;
    }
    false
}

/// Checks a batch of mappings against the named profile: the only
/// supported profile is emergency-management, and each of its expected
/// operations that has no mapping is noted as a warning, in order.
#[verifier::loop_isolation(false)]
#[verifier::rlimit(60)]
pub fn apply_profile(
    profile_name: &str,
    mappings: &Vec<MappingRow>,
    warnings: &mut Vec<WarningRow>,
) -> (r: Result<(), ConvertError>)
    ensures
        profile_name@ != "emergency-management"@ ==> (r matches Err(
            ConvertError::UnsupportedProfile,
        ) && final(warnings)@ == old(warnings)@),
        profile_name@ == "emergency-management"@ ==> (r matches Ok(u) && warning_views(
            final(warnings)@,
        ) == warning_views(old(warnings)@) + missing_ops(mappings@, 11).map_values(
            |op: Seq<char>| (op, profile_warning_reason()),
        )),
{
    if !str_eq(profile_name, "emergency-management") {
        return Err(ConvertError::UnsupportedProfile);
    }
    let expected: Vec<&str> = vec![
        "CreateEmergencyActionMessage",
        "ListEmergencyActionMessage",
        "PutEmergencyActionMessage",
        "RetrieveEmergencyActionMessage",
        "DeleteEmergencyActionMessage",
        "CreateEvent",
        "ListEvent",
        "PutEvent",
        "RetrieveEvent",
        "DeleteEvent",
        "StreamNotifications",
    ];
    proof {
        assert(expected@.len() == 11);
        assert forall|k: int| 0 <= k < 11 implies (#[trigger] expected@[k])@
            == expected_profile_ops()[k] by {
            assert(expected_profile_ops().len() == 11);
        }
    }
    let mut i: usize = 0;
    while i < expected.len()
        invariant
            i <= expected@.len(),
            expected@.len() == 11,
            forall|k: int|
                0 <= k < 11 ==> (#[trigger] expected@[k])@ == expected_profile_ops()[k],
            warning_views(warnings@) == warning_views(old(warnings)@) + missing_ops(
                mappings@,
                i as int,
            ).map_values(|op: Seq<char>| (op, profile_warning_reason())),
        decreases expected@.len() - i,
    {
        let op = *vstd::std_specs::vec::vec_index(&expected, i);
        let ghost pre = warnings@;
        if !has_mapping(mappings, op) {
            warnings.push(
                WarningRow {
                    operation_id: String::from_str(op),
                    reason: String::from_str(
                        "missing operation required by emergency-management profile",
                    ),
                },
            );
            proof {
                assert(warning_views(warnings@) =~= warning_views(pre).push(
                    (expected_profile_ops()[i as int], profile_warning_reason()),
                ));
                assert(missing_ops(mappings@, i + 1) =~= missing_ops(mappings@, i as int).push(
                    expected_profile_ops()[i as int],
                ));
                assert(warning_views(warnings@) =~= warning_views(old(warnings)@) + missing_ops(
                    mappings@,
                    i + 1,
                ).map_values(|op2: Seq<char>| (op2, profile_warning_reason())));
            }
        } else {
            proof {
                assert(missing_ops(mappings@, i + 1) =~= missing_ops(mappings@, i as int));
                assert(warning_views(warnings@) =~= warning_views(old(warnings)@) + missing_ops(
                    mappings@,
                    i + 1,
                ).map_values(|op2: Seq<char>| (op2, profile_warning_reason())));
            }
        }
        i = i + 1;
    }
    Ok(())
}

} // verus!
