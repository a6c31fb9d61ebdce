//! Roles, keys and the readonly role-to-key view that records carry.
use crate::error::{Error, Kind};
use crate::table::{Table, ascending};
use crate::text::{bytes_of, control_free, free_of_control, is_name, name_bytes};
use vstd::prelude::*;
use vstd::string::*;
use vstd::utf8::*;

verus! {

/// A valid role: 1..=128 bytes, each an ASCII letter or digit or one of `._-:/`.
pub open spec fn valid_role(text: Seq<char>) -> bool {
    is_name(bytes_of(text))
}

/// A role of 1..=128 bytes is accepted exactly when each of its bytes is an ASCII letter
/// (`a`..=`z`, `A`..=`Z`), an ASCII digit (`0`..=`9`), or one of `.`, `_`, `-`, `:` and `/`.
pub proof fn law_role_bytes(text: Seq<char>)
    ensures
        valid_role(text) <==> {
            &&& 1 <= bytes_of(text).len() <= 128
            &&& forall|i: int|
                0 <= i < bytes_of(text).len() ==> {
                    let b = #[trigger] bytes_of(text)[i];
                    ||| ('a' as u8) <= b <= ('z' as u8)
                    ||| ('A' as u8) <= b <= ('Z' as u8)
                    ||| ('0' as u8) <= b <= ('9' as u8)
                    ||| b == ('.' as u8)
                    ||| b == ('_' as u8)
                    ||| b == ('-' as u8)
                    ||| b == (':' as u8)
                    ||| b == ('/' as u8)
                }
        },
{
}

/// A valid key: 1..=512 bytes and no control character.
pub open spec fn valid_key(text: Seq<char>) -> bool {
    &&& 1 <= bytes_of(text).len() <= 512
    &&& control_free(text)
}

/// The message with which an invalid role is refused.
pub open spec fn role_refusal(text: Seq<char>) -> Seq<char> {
    if 1 <= bytes_of(text).len() <= 128 {
        "invalid role: "@ + text
    } else {
        "role must contain 1..=128 bytes"@
    }
}

/// The message with which an invalid key is refused.
pub open spec fn key_refusal(text: Seq<char>) -> Seq<char> {
    if 1 <= bytes_of(text).len() <= 512 {
        "key cannot contain control characters"@
    } else {
        "key must contain 1..=512 bytes"@
    }
}

/// A semantic key position, such as trace or span.
#[derive(Debug)]
pub struct Role {
    text: String,
}

impl View for Role {
    type V = Seq<char>;

    closed spec fn view(&self) -> Seq<char> {
        self.text@
    }
}

impl Role {
    #[verifier::type_invariant]
    spec fn valid(&self) -> bool {
        valid_role(self.text@)
    }

    /// A role from its text; refused unless the text is a valid role.
    pub fn new(value: &str) -> (r: Result<Self, Error>)
        ensures
            r is Ok <==> valid_role(value@),
            r matches Ok(role) ==> role@ == value@,
            r matches Err(e) ==> e@ == (Kind::Context, role_refusal(value@)),
    {
        let bytes = value.as_bytes();
        if bytes.len() == 0 || bytes.len() > 128 {
            return Err(Error::context("role must contain 1..=128 bytes".to_owned()));
        }
        if !name_bytes(bytes) {
            let mut message = "invalid role: ".to_owned();
            message.append(value);
            return Err(Error::context(message));
        }
        Ok(Role { text: value.to_owned() })
    }

    /// The role that names a trace: `locus.trace`.
    pub fn trace() -> (r: Self)
        ensures
            r@ == "locus.trace"@,
    {
        match Role::new("locus.trace") {
            Ok(role) => role,
            Err(_) => {
                proof {
                    reveal_strlit("locus.trace");
                    assert(is_ascii_chars("locus.trace"@));
                    is_ascii_chars_encode_utf8("locus.trace"@);
                }
                Role { text: "locus.trace".to_owned() }
            },
        }
    }

    /// The role that names a span: `locus.span`.
    pub fn span() -> (r: Self)
        ensures
            r@ == "locus.span"@,
    {
        match Role::new("locus.span") {
            Ok(role) => role,
            Err(_) => {
                proof {
                    reveal_strlit("locus.span");
                    assert(is_ascii_chars("locus.span"@));
                    is_ascii_chars_encode_utf8("locus.span"@);
                }
                Role { text: "locus.span".to_owned() }
            },
        }
    }

    /// The text of the role.
    pub fn text(&self) -> (r: &str)
        ensures
            r@ == self@,
            valid_role(self@),
    {
        proof {
            use_type_invariant(self);
        }
        self.text.as_str()
    }
}

impl Role {
    /// A role from a text already known to be valid.
    pub(crate) fn trusted(text: String) -> (r: Self)
        requires
            valid_role(text@),
        ensures
            r@ == text@,
    {
        Role { text }
    }
}

impl Clone for Role {
    fn clone(&self) -> (r: Self)
        ensures
            r@ == self@,
    {
        proof {
            use_type_invariant(self);
        }
        Role { text: self.text.clone() }
    }
}

/// An opaque identity selected for one role.
#[derive(Debug)]
pub struct Key {
    text: String,
}

impl View for Key {
    type V = Seq<char>;

    closed spec fn view(&self) -> Seq<char> {
        self.text@
    }
}

impl Key {
    #[verifier::type_invariant]
    spec fn valid(&self) -> bool {
        valid_key(self.text@)
    }

    /// A key from its text; refused unless the text is a valid key.
    pub fn new(value: &str) -> (r: Result<Self, Error>)
        ensures
            r is Ok <==> valid_key(value@),
            r matches Ok(key) ==> key@ == value@,
            r matches Err(e) ==> e@ == (Kind::Context, key_refusal(value@)),
    {
        let length = value.as_bytes().len();
        if length == 0 || length > 512 {
            return Err(Error::context("key must contain 1..=512 bytes".to_owned()));
        }
        if !free_of_control(value) {
            return Err(Error::context("key cannot contain control characters".to_owned()));
        }
        Ok(Key { text: value.to_owned() })
    }

    /// The text of the key.
    pub fn text(&self) -> (r: &str)
        ensures
            r@ == self@,
            valid_key(self@),
    {
        proof {
            use_type_invariant(self);
        }
        self.text.as_str()
    }

    /// A key from a text already known to be valid.
    pub(crate) fn trusted(text: String) -> (r: Self)
        requires
            valid_key(text@),
        ensures
            r@ == text@,
    {
        Key { text }
    }
}

impl Clone for Key {
    fn clone(&self) -> (r: Self)
        ensures
            r@ == self@,
    {
        proof {
            use_type_invariant(self);
        }
        Key { text: self.text.clone() }
    }
}

/// A map whose every key is a valid role bound to a valid key.
pub open spec fn bound_map(m: Map<Seq<char>, String>) -> bool {
    forall|k: Seq<char>| #[trigger] m.contains_key(k) ==> valid_role(k) && valid_key(m[k]@)
}

/// One immutable effective role-to-key view.
pub struct Context {
    table: Table<String>,
}

impl View for Context {
    type V = Map<Seq<char>, Seq<char>>;

    closed spec fn view(&self) -> Map<Seq<char>, Seq<char>> {
        Map::new(|k: Seq<char>| self.table@.contains_key(k), |k: Seq<char>| self.table@[k]@)
    }
}

impl Context {
    #[verifier::type_invariant]
    spec fn valid(&self) -> bool {
        &&& self.table.wf()
        &&& bound_map(self.table@)
    }

    /// The roles of the view in byte order, with their keys.
    pub closed spec fn bindings(&self) -> Seq<(Seq<char>, Seq<char>)> {
        self.table.entries().map_values(|e: (String, String)| (e.0@, e.1@))
    }

    /// The bindings list every role of the view once, in byte order, each with its key.
    proof fn lemma_bindings(&self)
        requires
            self.table.wf(),
        ensures
            crate::table::in_key_order(
                self.bindings().map_values(|b: (Seq<char>, Seq<char>)| b.0),
                self@.dom(),
            ),
            forall|i: int|
                0 <= i < self.bindings().len() ==> self@[(#[trigger] self.bindings()[i]).0]
                    == self.bindings()[i].1,
    {
        let e = self.table.entries();
        let keys = self.bindings().map_values(|b: (Seq<char>, Seq<char>)| b.0);
        assert forall|a: int, b: int| 0 <= a < b < keys.len() implies crate::text::text_precedes(
            #[trigger] keys[a],
            #[trigger] keys[b],
        ) by {
            assert(keys[a] == e[a].0@ && keys[b] == e[b].0@);
        }
        assert forall|j: int| 0 <= j < keys.len() implies self@.dom().contains(#[trigger] keys[j]) by {
            crate::table::lemma_map_at(e, j);
        }
        assert forall|k: Seq<char>| #[trigger] self@.dom().contains(k) implies exists|j: int|
            0 <= j < keys.len() && keys[j] == k by {
            let j = crate::table::pick(e, k);
            assert(keys[j] == k);
        }
        assert forall|i: int| 0 <= i < self.bindings().len() implies self@[(
        #[trigger] self.bindings()[i]).0] == self.bindings()[i].1 by {
            crate::table::lemma_map_at(e, i);
        }
    }

    /// A copy of the view.
    pub fn duplicate(&self) -> (r: Self)
        ensures
            r@ == self@,
            r.bindings() == self.bindings(),
    {
        proof {
            use_type_invariant(self);
        }
        Context { table: self.table.duplicate() }
    }

    /// The view that binds no role.
    pub fn empty() -> (r: Self)
        ensures
            r@ == Map::<Seq<char>, Seq<char>>::empty(),
            r.bindings() == Seq::<(Seq<char>, Seq<char>)>::empty(),
    {
        let r = Context { table: Table::new() };
        proof {
            assert(r@ =~= Map::<Seq<char>, Seq<char>>::empty());
            assert(r.bindings() =~= Seq::<(Seq<char>, Seq<char>)>::empty());
        }
        r
    }

    /// The key bound to `role`, if any.
    pub fn read(&self, role: &Role) -> (r: Option<Key>)
        ensures
            r matches Some(k) ==> self@.contains_key(role@) && k@ == self@[role@],
            r is None ==> !self@.contains_key(role@),
    {
        proof {
            use_type_invariant(self);
        }
        match self.table.find(role.text()) {
            Some(i) => {
                let text = self.table.value_at(i).clone();
                proof {
                    crate::table::lemma_map_at(self.table.entries(), i as int);
                }
                Some(Key::trusted(text))
            },
            None => None,
        }
    }

    /// A view that binds `role` to `key` and otherwise agrees with this one. This view
    /// is unchanged.
    pub fn bind(&self, role: Role, key: Key) -> (r: Self)
        ensures
            r@ == self@.insert(role@, key@),
    {
        proof {
            use_type_invariant(self);
            use_type_invariant(&role);
            use_type_invariant(&key);
        }
        let mut table = self.table.duplicate();
        table.put(role.text.clone(), key.text.clone());
        let r = Context { table };
        assert(r@ =~= self@.insert(role@, key@));
        r
    }

    /// A view holding the given bindings; a later binding of a role replaces an earlier one.
    pub fn load(entries: Vec<(Role, Key)>) -> (r: Self)
        ensures
            r@ == loaded(entries@.map_values(|e: (Role, Key)| (e.0@, e.1@))),
    {
        let mut context = Context::empty();
        let mut i: usize = 0;
        while i < entries.len()
            invariant
                i <= entries@.len(),
                context@ == loaded(entries@.map_values(|e: (Role, Key)| (e.0@, e.1@)).subrange(0, i as int)),
            decreases entries@.len() - i,
        {
            let role = entries[i].0.clone();
            let key = entries[i].1.clone();
            context = context.bind(role, key);
            proof {
                let s = entries@.map_values(|e: (Role, Key)| (e.0@, e.1@));
                assert(s.subrange(0, i + 1).drop_last() =~= s.subrange(0, i as int));
            }
            i = i + 1;
        }
        proof {
            let s = entries@.map_values(|e: (Role, Key)| (e.0@, e.1@));
            assert(s.subrange(0, entries@.len() as int) =~= s);
        }
        context
    }

    /// The bindings in role order: every role of the view once, in byte order, each
    /// with the key the view binds it to.
    pub fn entries(&self) -> (r: Vec<(Role, Key)>)
        ensures
            r@.map_values(|e: (Role, Key)| (e.0@, e.1@)) == self.bindings(),
            crate::table::in_key_order(
                self.bindings().map_values(|b: (Seq<char>, Seq<char>)| b.0),
                self@.dom(),
            ),
            forall|i: int|
                0 <= i < self.bindings().len() ==> self@[(#[trigger] self.bindings()[i]).0]
                    == self.bindings()[i].1,
    {
        proof {
            use_type_invariant(self);
            self.lemma_bindings();
        }
        let mut out: Vec<(Role, Key)> = Vec::new();
        let mut i: usize = 0;
        while i < self.table.len()
            invariant
                i <= self.table.entries().len(),
                self.table.wf(),
                bound_map(self.table@),
                out@.map_values(|e: (Role, Key)| (e.0@, e.1@)) == self.bindings().subrange(0, i as int),
            decreases self.table.entries().len() - i,
        {
            proof {
                crate::table::lemma_map_at(self.table.entries(), i as int);
            }
            let role = Role { text: self.table.key_at(i).clone() };
            let key = Key { text: self.table.value_at(i).clone() };
            let ghost prev = out@;
            out.push((role, key));
            proof {
                assert(self.bindings()[i as int] == (
                    self.table.entries()[i as int].0@,
                    self.table.entries()[i as int].1@,
                ));
                assert(out@ == prev.push((role, key)));
                assert(out@.map_values(|e: (Role, Key)| (e.0@, e.1@)) =~= prev.map_values(
                    |e: (Role, Key)| (e.0@, e.1@),
                ).push((role@, key@)));
                assert(self.bindings().subrange(0, i + 1) =~= self.bindings().subrange(
                    0,
                    i as int,
                ).push(self.bindings()[i as int]));
            }
            i = i + 1;
        }
        proof {
            assert(self.bindings().subrange(0, i as int) =~= self.bindings());
        }
        out
    }

    /// A snapshot of the view as texts, in role order.
    pub fn snapshot(&self) -> (r: Table<String>)
        ensures
            r.wf(),
            r.entries().map_values(|e: (String, String)| (e.0@, e.1@)) == self.bindings(),
            forall|k: Seq<char>| #[trigger] r@.contains_key(k) <==> self@.contains_key(k),
            forall|k: Seq<char>| #[trigger] r@.contains_key(k) ==> r@[k]@ == self@[k],
    {
        proof {
            use_type_invariant(self);
        }
        self.table.duplicate()
    }
}

/// The view that binding each pair in turn gives, starting from the empty view.
pub open spec fn loaded(pairs: Seq<(Seq<char>, Seq<char>)>) -> Map<Seq<char>, Seq<char>>
    decreases pairs.len(),
{
    if pairs.len() == 0 {
        Map::empty()
    } else {
        loaded(pairs.drop_last()).insert(pairs.last().0, pairs.last().1)
    }
}

} // verus!
