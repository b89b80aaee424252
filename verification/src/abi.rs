//! The contract ABI model: typed entries decoded from a contract's ABI
//! JSON array and encoded back to it.
//!
//! An entry's variant is read off the `type` member of each object.
//! Both known schema generations decode: the older one carries the
//! `constant` and `payable` flags beside `stateMutability`, the newer one
//! drops them and may nest `components` under a parameter.

use crate::json::Json;
use crate::text::str_eq;
use crate::json::JsonV;
use vstd::prelude::*;

verus! {

/// Model of a function or constructor parameter.
pub struct VariableV {
    pub name: Seq<char>,
    pub ty: Seq<char>,
    pub components: Option<Seq<VariableV>>,
}

/// Model of an event parameter.
pub struct EventVariableV {
    pub name: Seq<char>,
    pub ty: Seq<char>,
    pub components: Option<Seq<EventVariableV>>,
    pub indexed: bool,
}

/// Model of a callable function entry.
pub struct FunctionV {
    pub name: Seq<char>,
    pub inputs: Seq<VariableV>,
    pub outputs: Seq<VariableV>,
    pub state_mutability: Seq<char>,
    pub constant: Option<bool>,
    pub payable: Option<bool>,
}

/// Model of a constructor entry.
pub struct ConstructorV {
    pub inputs: Seq<VariableV>,
    pub state_mutability: Seq<char>,
    pub payable: Option<bool>,
}

/// Model of a fallback entry.
pub struct FallbackV {
    pub state_mutability: Seq<char>,
}

/// Model of an event entry.
pub struct EventV {
    pub name: Seq<char>,
    pub inputs: Seq<EventVariableV>,
    pub anonymous: bool,
}

/// Model of one ABI entry.
pub enum AbiV {
    Function(FunctionV),
    Constructor(ConstructorV),
    Fallback(FallbackV),
    Event(EventV),
}

/// A function or constructor parameter: a name (possibly empty), the
/// declared type, and the nested parameters of a tuple type.
#[derive(Debug, PartialEq)]
pub struct Variable {
    pub name: String,
    pub ty: String,
    pub components: Option<Vec<Variable>>,
}

/// An event parameter: a parameter plus its `indexed` flag.
#[derive(Debug, PartialEq)]
pub struct EventVariable {
    pub name: String,
    pub ty: String,
    pub components: Option<Vec<EventVariable>>,
    pub indexed: bool,
}

/// A callable function entry. The `constant` and `payable` flags are
/// present only when the older schema generation carried them.
#[allow(non_snake_case)]
#[derive(Debug, PartialEq)]
pub struct Function {
    pub name: String,
    pub inputs: Vec<Variable>,
    pub outputs: Vec<Variable>,
    pub stateMutability: String,
    pub constant: Option<bool>,
    pub payable: Option<bool>,
}

/// A constructor entry.
#[allow(non_snake_case)]
#[derive(Debug, PartialEq)]
pub struct Constructor {
    pub inputs: Vec<Variable>,
    pub stateMutability: String,
    pub payable: Option<bool>,
}

/// A fallback entry.
#[allow(non_snake_case)]
#[derive(Debug, PartialEq)]
pub struct Fallback {
    pub stateMutability: String,
}

/// An event entry.
#[derive(Debug, PartialEq)]
pub struct Event {
    pub name: String,
    pub inputs: Vec<EventVariable>,
    pub anonymous: bool,
}

/// One decoded ABI entry.
#[derive(Debug, PartialEq)]
pub enum Abi {
    Function(Function),
    Constructor(Constructor),
    Fallback(Fallback),
    Event(Event),
}

/// The deep views of a parameter list, in order.
pub open spec fn vars_view(cs: Seq<Variable>) -> Seq<VariableV>
    decreases cs,
{
    if cs.len() == 0 {
        Seq::empty()
    } else {
        seq![cs[0].deep_view()] + vars_view(cs.drop_first())
    }
}

/// The deep views of an event parameter list, in order.
pub open spec fn evars_view(cs: Seq<EventVariable>) -> Seq<EventVariableV>
    decreases cs,
{
    if cs.len() == 0 {
        Seq::empty()
    } else {
        seq![cs[0].deep_view()] + evars_view(cs.drop_first())
    }
}

impl DeepView for Variable {
    type V = VariableV;

    open spec fn deep_view(&self) -> VariableV
        decreases self,
    {
        VariableV {
            name: self.name@,
            ty: self.ty@,
            components: match &self.components {
                None => None,
                Some(cs) => Some(vars_view(cs@)),
            },
        }
    }
}

impl DeepView for EventVariable {
    type V = EventVariableV;

    open spec fn deep_view(&self) -> EventVariableV
        decreases self,
    {
        EventVariableV {
            name: self.name@,
            ty: self.ty@,
            components: match &self.components {
                None => None,
                Some(cs) => Some(evars_view(cs@)),
            },
            indexed: self.indexed,
        }
    }
}

impl DeepView for Function {
    type V = FunctionV;

    open spec fn deep_view(&self) -> FunctionV {
        FunctionV {
            name: self.name@,
            inputs: self.inputs.deep_view(),
            outputs: self.outputs.deep_view(),
            state_mutability: self.stateMutability@,
            constant: self.constant,
            payable: self.payable,
        }
    }
}

impl DeepView for Constructor {
    type V = ConstructorV;

    open spec fn deep_view(&self) -> ConstructorV {
        ConstructorV {
            inputs: self.inputs.deep_view(),
            state_mutability: self.stateMutability@,
            payable: self.payable,
        }
    }
}

impl DeepView for Fallback {
    type V = FallbackV;

    open spec fn deep_view(&self) -> FallbackV {
        FallbackV { state_mutability: self.stateMutability@ }
    }
}

impl DeepView for Event {
    type V = EventV;

    open spec fn deep_view(&self) -> EventV {
        EventV { name: self.name@, inputs: self.inputs.deep_view(), anonymous: self.anonymous }
    }
}

impl DeepView for Abi {
    type V = AbiV;

    open spec fn deep_view(&self) -> AbiV {
        match self {
            Abi::Function(f) => AbiV::Function(f.deep_view()),
            Abi::Constructor(c) => AbiV::Constructor(c.deep_view()),
            Abi::Fallback(f) => AbiV::Fallback(f.deep_view()),
            Abi::Event(e) => AbiV::Event(e.deep_view()),
        }
    }
}

/// Why an ABI JSON array was rejected.
pub enum SchemaErrorV {
    /// The text is not a JSON array at all.
    InvalidJson,
    /// An element matches no known entry shape.
    UnrecognizedEntry,
    /// The named member, required by the matched shape, is absent.
    MissingField(Seq<char>),
}

/// Why an ABI JSON array was rejected.
#[derive(Debug, PartialEq)]
pub enum SchemaError {
    /// The text is not a JSON array at all.
    InvalidJson,
    /// An element matches no known entry shape.
    UnrecognizedEntry,
    /// The named member, required by the matched shape, is absent.
    MissingField(String),
}

impl DeepView for SchemaError {
    type V = SchemaErrorV;

    open spec fn deep_view(&self) -> SchemaErrorV {
        match self {
            SchemaError::InvalidJson => SchemaErrorV::InvalidJson,
            SchemaError::UnrecognizedEntry => SchemaErrorV::UnrecognizedEntry,
            SchemaError::MissingField(f) => SchemaErrorV::MissingField(f@),
        }
    }
}

/// The `type` member key.
pub open spec fn key_type() -> Seq<char> {
    seq!['t', 'y', 'p', 'e']
}

/// The `name` member key.
pub open spec fn key_name() -> Seq<char> {
    seq!['n', 'a', 'm', 'e']
}

/// The `inputs` member key.
pub open spec fn key_inputs() -> Seq<char> {
    seq!['i', 'n', 'p', 'u', 't', 's']
}

/// The `outputs` member key.
pub open spec fn key_outputs() -> Seq<char> {
    seq!['o', 'u', 't', 'p', 'u', 't', 's']
}

/// The `stateMutability` member key.
pub open spec fn key_mutability() -> Seq<char> {
    seq!['s', 't', 'a', 't', 'e', 'M', 'u', 't', 'a', 'b', 'i', 'l', 'i', 't', 'y']
}

/// The `constant` member key.
pub open spec fn key_constant() -> Seq<char> {
    seq!['c', 'o', 'n', 's', 't', 'a', 'n', 't']
}

/// The `payable` member key.
pub open spec fn key_payable() -> Seq<char> {
    seq!['p', 'a', 'y', 'a', 'b', 'l', 'e']
}

/// The `anonymous` member key.
pub open spec fn key_anonymous() -> Seq<char> {
    seq!['a', 'n', 'o', 'n', 'y', 'm', 'o', 'u', 's']
}

/// The `indexed` member key.
pub open spec fn key_indexed() -> Seq<char> {
    seq!['i', 'n', 'd', 'e', 'x', 'e', 'd']
}

/// The `components` member key.
pub open spec fn key_components() -> Seq<char> {
    seq!['c', 'o', 'm', 'p', 'o', 'n', 'e', 'n', 't', 's']
}

/// The `function` tag.
pub open spec fn tag_function() -> Seq<char> {
    seq!['f', 'u', 'n', 'c', 't', 'i', 'o', 'n']
}

/// The `constructor` tag.
pub open spec fn tag_constructor() -> Seq<char> {
    seq!['c', 'o', 'n', 's', 't', 'r', 'u', 'c', 't', 'o', 'r']
}

/// The `fallback` tag.
pub open spec fn tag_fallback() -> Seq<char> {
    seq!['f', 'a', 'l', 'l', 'b', 'a', 'c', 'k']
}

/// The `event` tag.
pub open spec fn tag_event() -> Seq<char> {
    seq!['e', 'v', 'e', 'n', 't']
}

/// The first member with the given key, if any.
pub open spec fn jv_get(ms: Seq<(Seq<char>, JsonV)>, key: Seq<char>) -> Option<JsonV>
    decreases ms.len(),
{
    if ms.len() == 0 {
        None
    } else if ms[0].0 == key {
        Some(ms[0].1)
    } else {
        jv_get(ms.drop_first(), key)
    }
}

/// A required string member.
pub open spec fn str_field(ms: Seq<(Seq<char>, JsonV)>, key: Seq<char>) -> Result<
    Seq<char>,
    SchemaErrorV,
> {
    match jv_get(ms, key) {
        Some(JsonV::Str(s)) => Ok(s),
        Some(_) => Err(SchemaErrorV::UnrecognizedEntry),
        None => Err(SchemaErrorV::MissingField(key)),
    }
}

/// A required boolean member.
pub open spec fn bool_field(ms: Seq<(Seq<char>, JsonV)>, key: Seq<char>) -> Result<
    bool,
    SchemaErrorV,
> {
    match jv_get(ms, key) {
        Some(JsonV::Bool(b)) => Ok(b),
        Some(_) => Err(SchemaErrorV::UnrecognizedEntry),
        None => Err(SchemaErrorV::MissingField(key)),
    }
}

/// An optional boolean member; an absent member and a null one both count
/// as absent (the newer schema generation drops the legacy flags).
pub open spec fn opt_bool_field(ms: Seq<(Seq<char>, JsonV)>, key: Seq<char>) -> Result<
    Option<bool>,
    SchemaErrorV,
> {
    match jv_get(ms, key) {
        Some(JsonV::Bool(b)) => Ok(Some(b)),
        Some(JsonV::Null) => Ok(None),
        Some(_) => Err(SchemaErrorV::UnrecognizedEntry),
        None => Ok(None),
    }
}

/// Decodes a parameter's optional `components` member. The scan is written
/// over the member sequence itself so that the recursion into the nested
/// parameter list is visibly structural.
pub open spec fn var_components(ms: Seq<(Seq<char>, JsonV)>) -> Result<
    Option<Seq<VariableV>>,
    SchemaErrorV,
>
    decreases ms,
{
    if ms.len() == 0 {
        Ok(None)
    } else if ms[0].0 == key_components() {
        match ms[0].1 {
            JsonV::Arr(items) => match decode_vars(items) {
                Ok(vs) => Ok(Some(vs)),
                Err(e) => Err(e),
            },
            JsonV::Null => Ok(None),
            _ => Err(SchemaErrorV::UnrecognizedEntry),
        }
    } else {
        var_components(ms.drop_first())
    }
}

/// Decodes one parameter object.
pub open spec fn decode_var(j: JsonV) -> Result<VariableV, SchemaErrorV>
    decreases j,
{
    match j {
        JsonV::Obj(ms) => match str_field(ms, key_name()) {
            Err(e) => Err(e),
            Ok(name) => match str_field(ms, key_type()) {
                Err(e) => Err(e),
                Ok(ty) => match var_components(ms) {
                    Err(e) => Err(e),
                    Ok(components) => Ok(VariableV { name, ty, components }),
                },
            },
        },
        _ => Err(SchemaErrorV::UnrecognizedEntry),
    }
}

/// Decodes a parameter array in order.
pub open spec fn decode_vars(items: Seq<JsonV>) -> Result<Seq<VariableV>, SchemaErrorV>
    decreases items,
{
    if items.len() == 0 {
        Ok(Seq::empty())
    } else {
        match decode_var(items[0]) {
            Err(e) => Err(e),
            Ok(v) => match decode_vars(items.drop_first()) {
                Err(e) => Err(e),
                Ok(vs) => Ok(seq![v] + vs),
            },
        }
    }
}

/// Decodes an event parameter's optional `components` member.
pub open spec fn evar_components(ms: Seq<(Seq<char>, JsonV)>) -> Result<
    Option<Seq<EventVariableV>>,
    SchemaErrorV,
>
    decreases ms,
{
    if ms.len() == 0 {
        Ok(None)
    } else if ms[0].0 == key_components() {
        match ms[0].1 {
            JsonV::Arr(items) => match decode_evars(items) {
                Ok(vs) => Ok(Some(vs)),
                Err(e) => Err(e),
            },
            JsonV::Null => Ok(None),
            _ => Err(SchemaErrorV::UnrecognizedEntry),
        }
    } else {
        evar_components(ms.drop_first())
    }
}

/// Decodes one event parameter object.
pub open spec fn decode_evar(j: JsonV) -> Result<EventVariableV, SchemaErrorV>
    decreases j,
{
    match j {
        JsonV::Obj(ms) => match str_field(ms, key_name()) {
            Err(e) => Err(e),
            Ok(name) => match str_field(ms, key_type()) {
                Err(e) => Err(e),
                Ok(ty) => match bool_field(ms, key_indexed()) {
                    Err(e) => Err(e),
                    Ok(indexed) => match evar_components(ms) {
                        Err(e) => Err(e),
                        Ok(components) => Ok(
                            EventVariableV { name, ty, components, indexed },
                        ),
                    },
                },
            },
        },
        _ => Err(SchemaErrorV::UnrecognizedEntry),
    }
}

/// Decodes an event parameter array in order.
pub open spec fn decode_evars(items: Seq<JsonV>) -> Result<Seq<EventVariableV>, SchemaErrorV>
    decreases items,
{
    if items.len() == 0 {
        Ok(Seq::empty())
    } else {
        match decode_evar(items[0]) {
            Err(e) => Err(e),
            Ok(v) => match decode_evars(items.drop_first()) {
                Err(e) => Err(e),
                Ok(vs) => Ok(seq![v] + vs),
            },
        }
    }
}

/// A required parameter-array member, decoded in order.
pub open spec fn vars_field(ms: Seq<(Seq<char>, JsonV)>, key: Seq<char>) -> Result<
    Seq<VariableV>,
    SchemaErrorV,
>
    decreases ms,
{
    if ms.len() == 0 {
        Err(SchemaErrorV::MissingField(key))
    } else if ms[0].0 == key {
        match ms[0].1 {
            JsonV::Arr(items) => decode_vars(items),
            _ => Err(SchemaErrorV::UnrecognizedEntry),
        }
    } else {
        vars_field(ms.drop_first(), key)
    }
}

/// A required event-parameter-array member, decoded in order.
pub open spec fn evars_field(ms: Seq<(Seq<char>, JsonV)>, key: Seq<char>) -> Result<
    Seq<EventVariableV>,
    SchemaErrorV,
>
    decreases ms,
{
    if ms.len() == 0 {
        Err(SchemaErrorV::MissingField(key))
    } else if ms[0].0 == key {
        match ms[0].1 {
            JsonV::Arr(items) => decode_evars(items),
            _ => Err(SchemaErrorV::UnrecognizedEntry),
        }
    } else {
        evars_field(ms.drop_first(), key)
    }
}

/// Decodes a function entry's members.
pub open spec fn decode_function(ms: Seq<(Seq<char>, JsonV)>) -> Result<
    FunctionV,
    SchemaErrorV,
>
    decreases ms, 1int,
{
    match str_field(ms, key_name()) {
        Err(e) => Err(e),
        Ok(name) => match vars_field(ms, key_inputs()) {
            Err(e) => Err(e),
            Ok(inputs) => match vars_field(ms, key_outputs()) {
                Err(e) => Err(e),
                Ok(outputs) => match str_field(ms, key_mutability()) {
                    Err(e) => Err(e),
                    Ok(state_mutability) => match opt_bool_field(ms, key_constant()) {
                        Err(e) => Err(e),
                        Ok(constant) => match opt_bool_field(ms, key_payable()) {
                            Err(e) => Err(e),
                            Ok(payable) => Ok(
                                FunctionV {
                                    name,
                                    inputs,
                                    outputs,
                                    state_mutability,
                                    constant,
                                    payable,
                                },
                            ),
                        },
                    },
                },
            },
        },
    }
}

/// Decodes a constructor entry's members.
pub open spec fn decode_constructor(ms: Seq<(Seq<char>, JsonV)>) -> Result<
    ConstructorV,
    SchemaErrorV,
>
    decreases ms, 1int,
{
    match vars_field(ms, key_inputs()) {
        Err(e) => Err(e),
        Ok(inputs) => match str_field(ms, key_mutability()) {
            Err(e) => Err(e),
            Ok(state_mutability) => match opt_bool_field(ms, key_payable()) {
                Err(e) => Err(e),
                Ok(payable) => Ok(ConstructorV { inputs, state_mutability, payable }),
            },
        },
    }
}

/// Decodes a fallback entry's members.
pub open spec fn decode_fallback(ms: Seq<(Seq<char>, JsonV)>) -> Result<
    FallbackV,
    SchemaErrorV,
> {
    match str_field(ms, key_mutability()) {
        Err(e) => Err(e),
        Ok(state_mutability) => Ok(FallbackV { state_mutability }),
    }
}

/// Decodes an event entry's members.
pub open spec fn decode_event(ms: Seq<(Seq<char>, JsonV)>) -> Result<EventV, SchemaErrorV>
    decreases ms, 1int,
{
    match str_field(ms, key_name()) {
        Err(e) => Err(e),
        Ok(name) => match evars_field(ms, key_inputs()) {
            Err(e) => Err(e),
            Ok(inputs) => match bool_field(ms, key_anonymous()) {
                Err(e) => Err(e),
                Ok(anonymous) => Ok(EventV { name, inputs, anonymous }),
            },
        },
    }
}

/// Decodes one ABI entry: an object whose `type` member selects the
/// variant, in the fixed precedence function, constructor, fallback,
/// event. Anything else is an unrecognized entry.
pub open spec fn decode_entry(j: JsonV) -> Result<AbiV, SchemaErrorV>
    decreases j, 2int,
{
    match j {
        JsonV::Obj(ms) => match jv_get(ms, key_type()) {
            Some(JsonV::Str(tag)) => if tag == tag_function() {
                match decode_function(ms) {
                    Ok(f) => Ok(AbiV::Function(f)),
                    Err(e) => Err(e),
                }
            } else if tag == tag_constructor() {
                match decode_constructor(ms) {
                    Ok(c) => Ok(AbiV::Constructor(c)),
                    Err(e) => Err(e),
                }
            } else if tag == tag_fallback() {
                match decode_fallback(ms) {
                    Ok(f) => Ok(AbiV::Fallback(f)),
                    Err(e) => Err(e),
                }
            } else if tag == tag_event() {
                match decode_event(ms) {
                    Ok(e) => Ok(AbiV::Event(e)),
                    Err(e) => Err(e),
                }
            } else {
                Err(SchemaErrorV::UnrecognizedEntry)
            },
            _ => Err(SchemaErrorV::UnrecognizedEntry),
        },
        _ => Err(SchemaErrorV::UnrecognizedEntry),
    }
}

/// Decodes a sequence of ABI entries in order.
pub open spec fn decode_entries(items: Seq<JsonV>) -> Result<Seq<AbiV>, SchemaErrorV>
    decreases items,
{
    if items.len() == 0 {
        Ok(Seq::empty())
    } else {
        match decode_entry(items[0]) {
            Err(e) => Err(e),
            Ok(v) => match decode_entries(items.drop_first()) {
                Err(e) => Err(e),
                Ok(vs) => Ok(seq![v] + vs),
            },
        }
    }
}

/// Decodes a whole ABI JSON array from text: the text must parse as JSON
/// and be an array of recognized entries.
pub open spec fn abi_from_text(s: Seq<char>) -> Result<Seq<AbiV>, SchemaErrorV> {
    match crate::json::parse_text(s) {
        None => Err(SchemaErrorV::InvalidJson),
        Some(JsonV::Arr(items)) => decode_entries(items),
        Some(_) => Err(SchemaErrorV::UnrecognizedEntry),
    }
}

/// Encodes one parameter: `name` and `type`, then `components` only when
/// present.
pub open spec fn encode_var(v: VariableV) -> JsonV
    decreases v,
{
    let base = seq![
        (key_name(), JsonV::Str(v.name)),
        (key_type(), JsonV::Str(v.ty)),
    ];
    match v.components {
        None => JsonV::Obj(base),
        Some(cs) => JsonV::Obj(base.push((key_components(), JsonV::Arr(encode_vars(cs))))),
    }
}

/// Encodes a parameter list in order.
pub open spec fn encode_vars(vs: Seq<VariableV>) -> Seq<JsonV>
    decreases vs,
{
    if vs.len() == 0 {
        Seq::empty()
    } else {
        seq![encode_var(vs[0])] + encode_vars(vs.drop_first())
    }
}

/// Encodes one event parameter.
pub open spec fn encode_evar(v: EventVariableV) -> JsonV
    decreases v,
{
    let base = seq![
        (key_name(), JsonV::Str(v.name)),
        (key_type(), JsonV::Str(v.ty)),
        (key_indexed(), JsonV::Bool(v.indexed)),
    ];
    match v.components {
        None => JsonV::Obj(base),
        Some(cs) => JsonV::Obj(base.push((key_components(), JsonV::Arr(encode_evars(cs))))),
    }
}

/// Encodes an event parameter list in order.
pub open spec fn encode_evars(vs: Seq<EventVariableV>) -> Seq<JsonV>
    decreases vs,
{
    if vs.len() == 0 {
        Seq::empty()
    } else {
        seq![encode_evar(vs[0])] + encode_evars(vs.drop_first())
    }
}

/// Appends the legacy flags that are present.
pub open spec fn push_flags(
    base: Seq<(Seq<char>, JsonV)>,
    constant: Option<bool>,
    payable: Option<bool>,
) -> Seq<(Seq<char>, JsonV)> {
    let with_c = match constant {
        None => base,
        Some(b) => base.push((key_constant(), JsonV::Bool(b))),
    };
    match payable {
        None => with_c,
        Some(b) => with_c.push((key_payable(), JsonV::Bool(b))),
    }
}

/// Encodes one ABI entry as an object with its `type` tag first.
pub open spec fn encode_entry(e: AbiV) -> JsonV
    decreases e,
{
    match e {
        AbiV::Function(f) => JsonV::Obj(
            push_flags(
                seq![
                    (key_type(), JsonV::Str(tag_function())),
                    (key_name(), JsonV::Str(f.name)),
                    (key_inputs(), JsonV::Arr(encode_vars(f.inputs))),
                    (key_outputs(), JsonV::Arr(encode_vars(f.outputs))),
                    (key_mutability(), JsonV::Str(f.state_mutability)),
                ],
                f.constant,
                f.payable,
            ),
        ),
        AbiV::Constructor(c) => JsonV::Obj(
            push_flags(
                seq![
                    (key_type(), JsonV::Str(tag_constructor())),
                    (key_inputs(), JsonV::Arr(encode_vars(c.inputs))),
                    (key_mutability(), JsonV::Str(c.state_mutability)),
                ],
                None,
                c.payable,
            ),
        ),
        AbiV::Fallback(f) => JsonV::Obj(
            seq![
                (key_type(), JsonV::Str(tag_fallback())),
                (key_mutability(), JsonV::Str(f.state_mutability)),
            ],
        ),
        AbiV::Event(e) => JsonV::Obj(
            seq![
                (key_type(), JsonV::Str(tag_event())),
                (key_name(), JsonV::Str(e.name)),
                (key_inputs(), JsonV::Arr(encode_evars(e.inputs))),
                (key_anonymous(), JsonV::Bool(e.anonymous)),
            ],
        ),
    }
}

/// Encodes a sequence of ABI entries in order.
pub open spec fn encode_entries(es: Seq<AbiV>) -> Seq<JsonV>
    decreases es,
{
    if es.len() == 0 {
        Seq::empty()
    } else {
        seq![encode_entry(es[0])] + encode_entries(es.drop_first())
    }
}

/// The JSON array value an entry sequence encodes to.
pub open spec fn abi_to_jv(es: Seq<AbiV>) -> JsonV {
    JsonV::Arr(encode_entries(es))
}

/// Looking a key up past an appended member: the earlier members win.
pub proof fn lemma_get_push(s: Seq<(Seq<char>, JsonV)>, p: (Seq<char>, JsonV), k: Seq<char>)
    ensures
        jv_get(s.push(p), k) == (match jv_get(s, k) {
            Some(v) => Some(v),
            None => if p.0 == k {
                Some(p.1)
            } else {
                None
            },
        }),
    decreases s.len(),
{
    if s.len() == 0 {
        assert(s.push(p)[0] == p);
        assert(s.push(p).drop_first() =~= Seq::<(Seq<char>, JsonV)>::empty());
    } else {
        assert(s.push(p)[0] == s[0]);
        assert(s.push(p).drop_first() =~= s.drop_first().push(p));
        lemma_get_push(s.drop_first(), p, k);
    }
}

/// The parameter-array field scan agrees with a plain lookup.
pub proof fn lemma_vars_field_get(ms: Seq<(Seq<char>, JsonV)>, k: Seq<char>)
    ensures
        vars_field(ms, k) == (match jv_get(ms, k) {
            None => Err::<Seq<VariableV>, SchemaErrorV>(SchemaErrorV::MissingField(k)),
            Some(JsonV::Arr(items)) => decode_vars(items),
            Some(_) => Err(SchemaErrorV::UnrecognizedEntry),
        }),
    decreases ms.len(),
{
    if ms.len() > 0 && ms[0].0 != k {
        lemma_vars_field_get(ms.drop_first(), k);
    }
}

/// The event-parameter-array field scan agrees with a plain lookup.
pub proof fn lemma_evars_field_get(ms: Seq<(Seq<char>, JsonV)>, k: Seq<char>)
    ensures
        evars_field(ms, k) == (match jv_get(ms, k) {
            None => Err::<Seq<EventVariableV>, SchemaErrorV>(SchemaErrorV::MissingField(k)),
            Some(JsonV::Arr(items)) => decode_evars(items),
            Some(_) => Err(SchemaErrorV::UnrecognizedEntry),
        }),
    decreases ms.len(),
{
    if ms.len() > 0 && ms[0].0 != k {
        lemma_evars_field_get(ms.drop_first(), k);
    }
}

/// The `components` scan agrees with a plain lookup.
pub proof fn lemma_var_components_get(ms: Seq<(Seq<char>, JsonV)>)
    ensures
        var_components(ms) == (match jv_get(ms, key_components()) {
            None => Ok::<Option<Seq<VariableV>>, SchemaErrorV>(None),
            Some(JsonV::Arr(items)) => match decode_vars(items) {
                Ok(vs) => Ok(Some(vs)),
                Err(e) => Err(e),
            },
            Some(JsonV::Null) => Ok(None),
            Some(_) => Err(SchemaErrorV::UnrecognizedEntry),
        }),
    decreases ms.len(),
{
    if ms.len() > 0 && ms[0].0 != key_components() {
        lemma_var_components_get(ms.drop_first());
    }
}

/// The event `components` scan agrees with a plain lookup.
pub proof fn lemma_evar_components_get(ms: Seq<(Seq<char>, JsonV)>)
    ensures
        evar_components(ms) == (match jv_get(ms, key_components()) {
            None => Ok::<Option<Seq<EventVariableV>>, SchemaErrorV>(None),
            Some(JsonV::Arr(items)) => match decode_evars(items) {
                Ok(vs) => Ok(Some(vs)),
                Err(e) => Err(e),
            },
            Some(JsonV::Null) => Ok(None),
            Some(_) => Err(SchemaErrorV::UnrecognizedEntry),
        }),
    decreases ms.len(),
{
    if ms.len() > 0 && ms[0].0 != key_components() {
        lemma_evar_components_get(ms.drop_first());
    }
}

/// The member keys and entry tags that appear together in one object are
/// pairwise distinct.
pub proof fn lemma_keys_distinct()
    ensures
        key_name() != key_type(),
        key_name() != key_components(),
        key_type() != key_components(),
        key_indexed() != key_name(),
        key_indexed() != key_type(),
        key_indexed() != key_components(),
        key_inputs() != key_type(),
        key_inputs() != key_name(),
        key_outputs() != key_type(),
        key_outputs() != key_name(),
        key_outputs() != key_inputs(),
        key_mutability() != key_type(),
        key_mutability() != key_name(),
        key_mutability() != key_inputs(),
        key_mutability() != key_outputs(),
        key_constant() != key_type(),
        key_constant() != key_name(),
        key_constant() != key_inputs(),
        key_constant() != key_outputs(),
        key_constant() != key_mutability(),
        key_payable() != key_type(),
        key_payable() != key_name(),
        key_payable() != key_inputs(),
        key_payable() != key_outputs(),
        key_payable() != key_mutability(),
        key_payable() != key_constant(),
        key_anonymous() != key_type(),
        key_anonymous() != key_name(),
        key_anonymous() != key_inputs(),
        tag_function() != tag_constructor(),
        tag_function() != tag_fallback(),
        tag_function() != tag_event(),
        tag_constructor() != tag_fallback(),
        tag_constructor() != tag_event(),
        tag_fallback() != tag_event(),
{
    assert(key_name()[0] == 'n' && key_type()[0] == 't' && key_components()[0] == 'c'
        && key_indexed()[0] == 'i' && key_inputs()[0] == 'i' && key_outputs()[0] == 'o'
        && key_mutability()[0] == 's' && key_constant()[0] == 'c' && key_payable()[0] == 'p'
        && key_anonymous()[0] == 'a');
    assert(key_name().len() == 4 && key_type().len() == 4 && key_components().len() == 10
        && key_indexed().len() == 7 && key_inputs().len() == 6 && key_outputs().len() == 7
        && key_mutability().len() == 15 && key_constant().len() == 8 && key_payable().len() == 7
        && key_anonymous().len() == 9);
    assert(tag_function()[1] == 'u' && tag_fallback()[1] == 'a');
    assert(tag_function().len() == 8 && tag_constructor().len() == 11 && tag_fallback().len() == 8
        && tag_event().len() == 5);
}

/// A key other than the flag keys looks up past the appended flags.
pub proof fn lemma_get_flags_other(
    base: Seq<(Seq<char>, JsonV)>,
    c: Option<bool>,
    p: Option<bool>,
    k: Seq<char>,
)
    requires
        k != key_constant(),
        k != key_payable(),
    ensures
        jv_get(push_flags(base, c, p), k) == jv_get(base, k),
{
    let with_c = match c {
        None => base,
        Some(b) => base.push((key_constant(), JsonV::Bool(b))),
    };
    match c {
        None => {},
        Some(b) => {
            lemma_get_push(base, (key_constant(), JsonV::Bool(b)), k);
        },
    }
    match p {
        None => {},
        Some(b) => {
            lemma_get_push(with_c, (key_payable(), JsonV::Bool(b)), k);
        },
    }
}

/// The appended flags are found exactly when present.
pub proof fn lemma_get_flags_self(
    base: Seq<(Seq<char>, JsonV)>,
    c: Option<bool>,
    p: Option<bool>,
)
    requires
        jv_get(base, key_constant()) is None,
        jv_get(base, key_payable()) is None,
    ensures
        jv_get(push_flags(base, c, p), key_constant()) == (match c {
            Some(b) => Some(JsonV::Bool(b)),
            None => None,
        }),
        jv_get(push_flags(base, c, p), key_payable()) == (match p {
            Some(b) => Some(JsonV::Bool(b)),
            None => None,
        }),
{
    lemma_keys_distinct();
    let with_c = match c {
        None => base,
        Some(b) => base.push((key_constant(), JsonV::Bool(b))),
    };
    match c {
        None => {},
        Some(b) => {
            lemma_get_push(base, (key_constant(), JsonV::Bool(b)), key_constant());
            lemma_get_push(base, (key_constant(), JsonV::Bool(b)), key_payable());
        },
    }
    match p {
        None => {},
        Some(b) => {
            lemma_get_push(with_c, (key_payable(), JsonV::Bool(b)), key_constant());
            lemma_get_push(with_c, (key_payable(), JsonV::Bool(b)), key_payable());
        },
    }
}

/// Decoding an encoded parameter returns exactly that parameter.
pub proof fn lemma_rt_var(v: VariableV)
    ensures
        decode_var(encode_var(v)) == Ok::<VariableV, SchemaErrorV>(v),
    decreases v,
{
    lemma_keys_distinct();
    let base = seq![(key_name(), JsonV::Str(v.name)), (key_type(), JsonV::Str(v.ty))];
    let tail1 = base.drop_first();
    let tail2 = tail1.drop_first();
    assert(tail1 =~= base.subrange(1, 2));
    assert(tail2 =~= Seq::<(Seq<char>, JsonV)>::empty());
    assert(jv_get(base, key_name()) == Some(JsonV::Str(v.name)));
    assert(jv_get(base, key_type()) == jv_get(tail1, key_type()));
    assert(jv_get(tail1, key_type()) == Some(JsonV::Str(v.ty)));
    assert(jv_get(base, key_components()) == jv_get(tail1, key_components()));
    assert(jv_get(tail1, key_components()) == jv_get(tail2, key_components()));
    assert(jv_get(tail2, key_components()) is None);
    match v.components {
        None => {
            lemma_var_components_get(base);
        },
        Some(cs) => {
            let comp = (key_components(), JsonV::Arr(encode_vars(cs)));
            let ms = base.push(comp);
            lemma_get_push(base, comp, key_name());
            lemma_get_push(base, comp, key_type());
            lemma_get_push(base, comp, key_components());
            lemma_var_components_get(ms);
            lemma_rt_vars(cs);
        },
    }
}

/// Decoding an encoded parameter list returns exactly that list.
pub proof fn lemma_rt_vars(vs: Seq<VariableV>)
    ensures
        decode_vars(encode_vars(vs)) == Ok::<Seq<VariableV>, SchemaErrorV>(vs),
    decreases vs,
{
    if vs.len() == 0 {
        assert(vs =~= Seq::<VariableV>::empty());
    } else {
        let items = encode_vars(vs);
        assert(items[0] == encode_var(vs[0]));
        assert(items.drop_first() =~= encode_vars(vs.drop_first()));
        lemma_rt_var(vs[0]);
        lemma_rt_vars(vs.drop_first());
        assert(seq![vs[0]] + vs.drop_first() =~= vs);
    }
}

/// Decoding an encoded event parameter returns exactly that parameter.
pub proof fn lemma_rt_evar(v: EventVariableV)
    ensures
        decode_evar(encode_evar(v)) == Ok::<EventVariableV, SchemaErrorV>(v),
    decreases v,
{
    lemma_keys_distinct();
    let base = seq![
        (key_name(), JsonV::Str(v.name)),
        (key_type(), JsonV::Str(v.ty)),
        (key_indexed(), JsonV::Bool(v.indexed)),
    ];
    let tail1 = base.drop_first();
    let tail2 = tail1.drop_first();
    let tail3 = tail2.drop_first();
    assert(tail1 =~= base.subrange(1, 3));
    assert(tail2 =~= base.subrange(2, 3));
    assert(tail3 =~= Seq::<(Seq<char>, JsonV)>::empty());
    assert(jv_get(base, key_name()) == Some(JsonV::Str(v.name)));
    assert(jv_get(base, key_type()) == jv_get(tail1, key_type()));
    assert(jv_get(tail1, key_type()) == Some(JsonV::Str(v.ty)));
    assert(jv_get(base, key_indexed()) == jv_get(tail1, key_indexed()));
    assert(jv_get(tail1, key_indexed()) == jv_get(tail2, key_indexed()));
    assert(jv_get(tail2, key_indexed()) == Some(JsonV::Bool(v.indexed)));
    assert(jv_get(base, key_components()) == jv_get(tail1, key_components()));
    assert(jv_get(tail1, key_components()) == jv_get(tail2, key_components()));
    assert(jv_get(tail2, key_components()) == jv_get(tail3, key_components()));
    assert(jv_get(tail3, key_components()) is None);
    match v.components {
        None => {
            lemma_evar_components_get(base);
        },
        Some(cs) => {
            let comp = (key_components(), JsonV::Arr(encode_evars(cs)));
            let ms = base.push(comp);
            lemma_get_push(base, comp, key_name());
            lemma_get_push(base, comp, key_type());
            lemma_get_push(base, comp, key_indexed());
            lemma_get_push(base, comp, key_components());
            lemma_evar_components_get(ms);
            lemma_rt_evars(cs);
        },
    }
}

/// Decoding an encoded event parameter list returns exactly that list.
pub proof fn lemma_rt_evars(vs: Seq<EventVariableV>)
    ensures
        decode_evars(encode_evars(vs)) == Ok::<Seq<EventVariableV>, SchemaErrorV>(vs),
    decreases vs,
{
    if vs.len() == 0 {
        assert(vs =~= Seq::<EventVariableV>::empty());
    } else {
        let items = encode_evars(vs);
        assert(items[0] == encode_evar(vs[0]));
        assert(items.drop_first() =~= encode_evars(vs.drop_first()));
        lemma_rt_evar(vs[0]);
        lemma_rt_evars(vs.drop_first());
        assert(seq![vs[0]] + vs.drop_first() =~= vs);
    }
}

/// Decoding an encoded entry returns exactly that entry.
pub proof fn lemma_rt_entry(e: AbiV)
    ensures
        decode_entry(encode_entry(e)) == Ok::<AbiV, SchemaErrorV>(e),
{
    lemma_keys_distinct();
    match e {
        AbiV::Function(f) => {
            let base = seq![
                (key_type(), JsonV::Str(tag_function())),
                (key_name(), JsonV::Str(f.name)),
                (key_inputs(), JsonV::Arr(encode_vars(f.inputs))),
                (key_outputs(), JsonV::Arr(encode_vars(f.outputs))),
                (key_mutability(), JsonV::Str(f.state_mutability)),
            ];
            let tail1 = base.drop_first();
            let tail2 = tail1.drop_first();
            let tail3 = tail2.drop_first();
            let tail4 = tail3.drop_first();
            let tail5 = tail4.drop_first();
            assert(tail1 =~= base.subrange(1, 5));
            assert(tail2 =~= base.subrange(2, 5));
            assert(tail3 =~= base.subrange(3, 5));
            assert(tail4 =~= base.subrange(4, 5));
            assert(tail5 =~= Seq::<(Seq<char>, JsonV)>::empty());
            assert(jv_get(base, key_type()) == Some(JsonV::Str(tag_function())));
            assert(jv_get(base, key_name()) == jv_get(tail1, key_name()));
            assert(jv_get(tail1, key_name()) == Some(JsonV::Str(f.name)));
            assert(jv_get(base, key_inputs()) == jv_get(tail1, key_inputs()));
            assert(jv_get(tail1, key_inputs()) == jv_get(tail2, key_inputs()));
            assert(jv_get(tail2, key_inputs()) == Some(JsonV::Arr(encode_vars(f.inputs))));
            assert(jv_get(base, key_outputs()) == jv_get(tail1, key_outputs()));
            assert(jv_get(tail1, key_outputs()) == jv_get(tail2, key_outputs()));
            assert(jv_get(tail2, key_outputs()) == jv_get(tail3, key_outputs()));
            assert(jv_get(tail3, key_outputs()) == Some(JsonV::Arr(encode_vars(f.outputs))));
            assert(jv_get(base, key_mutability()) == jv_get(tail1, key_mutability()));
            assert(jv_get(tail1, key_mutability()) == jv_get(tail2, key_mutability()));
            assert(jv_get(tail2, key_mutability()) == jv_get(tail3, key_mutability()));
            assert(jv_get(tail3, key_mutability()) == jv_get(tail4, key_mutability()));
            assert(jv_get(tail4, key_mutability()) == Some(JsonV::Str(f.state_mutability)));
            assert(jv_get(base, key_constant()) == jv_get(tail1, key_constant()));
            assert(jv_get(tail1, key_constant()) == jv_get(tail2, key_constant()));
            assert(jv_get(tail2, key_constant()) == jv_get(tail3, key_constant()));
            assert(jv_get(tail3, key_constant()) == jv_get(tail4, key_constant()));
            assert(jv_get(tail4, key_constant()) == jv_get(tail5, key_constant()));
            assert(jv_get(tail5, key_constant()) is None);
            assert(jv_get(base, key_payable()) == jv_get(tail1, key_payable()));
            assert(jv_get(tail1, key_payable()) == jv_get(tail2, key_payable()));
            assert(jv_get(tail2, key_payable()) == jv_get(tail3, key_payable()));
            assert(jv_get(tail3, key_payable()) == jv_get(tail4, key_payable()));
            assert(jv_get(tail4, key_payable()) == jv_get(tail5, key_payable()));
            assert(jv_get(tail5, key_payable()) is None);
            let ms = push_flags(base, f.constant, f.payable);
            lemma_get_flags_other(base, f.constant, f.payable, key_type());
            lemma_get_flags_other(base, f.constant, f.payable, key_name());
            lemma_get_flags_other(base, f.constant, f.payable, key_inputs());
            lemma_get_flags_other(base, f.constant, f.payable, key_outputs());
            lemma_get_flags_other(base, f.constant, f.payable, key_mutability());
            lemma_get_flags_self(base, f.constant, f.payable);
            lemma_vars_field_get(ms, key_inputs());
            lemma_vars_field_get(ms, key_outputs());
            lemma_rt_vars(f.inputs);
            lemma_rt_vars(f.outputs);
        },
        AbiV::Constructor(c) => {
            let base = seq![
                (key_type(), JsonV::Str(tag_constructor())),
                (key_inputs(), JsonV::Arr(encode_vars(c.inputs))),
                (key_mutability(), JsonV::Str(c.state_mutability)),
            ];
            let tail1 = base.drop_first();
            let tail2 = tail1.drop_first();
            let tail3 = tail2.drop_first();
            assert(tail1 =~= base.subrange(1, 3));
            assert(tail2 =~= base.subrange(2, 3));
            assert(tail3 =~= Seq::<(Seq<char>, JsonV)>::empty());
            assert(jv_get(base, key_type()) == Some(JsonV::Str(tag_constructor())));
            assert(jv_get(base, key_inputs()) == jv_get(tail1, key_inputs()));
            assert(jv_get(tail1, key_inputs()) == Some(JsonV::Arr(encode_vars(c.inputs))));
            assert(jv_get(base, key_mutability()) == jv_get(tail1, key_mutability()));
            assert(jv_get(tail1, key_mutability()) == jv_get(tail2, key_mutability()));
            assert(jv_get(tail2, key_mutability()) == Some(JsonV::Str(c.state_mutability)));
            assert(jv_get(base, key_constant()) == jv_get(tail1, key_constant()));
            assert(jv_get(tail1, key_constant()) == jv_get(tail2, key_constant()));
            assert(jv_get(tail2, key_constant()) == jv_get(tail3, key_constant()));
            assert(jv_get(tail3, key_constant()) is None);
            assert(jv_get(base, key_payable()) == jv_get(tail1, key_payable()));
            assert(jv_get(tail1, key_payable()) == jv_get(tail2, key_payable()));
            assert(jv_get(tail2, key_payable()) == jv_get(tail3, key_payable()));
            assert(jv_get(tail3, key_payable()) is None);
            let ms = push_flags(base, None, c.payable);
            lemma_get_flags_other(base, None, c.payable, key_type());
            lemma_get_flags_other(base, None, c.payable, key_inputs());
            lemma_get_flags_other(base, None, c.payable, key_mutability());
            lemma_get_flags_self(base, None, c.payable);
            lemma_vars_field_get(ms, key_inputs());
            lemma_rt_vars(c.inputs);
        },
        AbiV::Fallback(fb) => {
            let ms = seq![
                (key_type(), JsonV::Str(tag_fallback())),
                (key_mutability(), JsonV::Str(fb.state_mutability)),
            ];
            let tail1 = ms.drop_first();
            assert(tail1 =~= ms.subrange(1, 2));
            assert(jv_get(ms, key_type()) == Some(JsonV::Str(tag_fallback())));
            assert(jv_get(ms, key_mutability()) == jv_get(tail1, key_mutability()));
            assert(jv_get(tail1, key_mutability()) == Some(JsonV::Str(fb.state_mutability)));
        },
        AbiV::Event(ev) => {
            let ms = seq![
                (key_type(), JsonV::Str(tag_event())),
                (key_name(), JsonV::Str(ev.name)),
                (key_inputs(), JsonV::Arr(encode_evars(ev.inputs))),
                (key_anonymous(), JsonV::Bool(ev.anonymous)),
            ];
            let tail1 = ms.drop_first();
            let tail2 = tail1.drop_first();
            let tail3 = tail2.drop_first();
            let tail4 = tail3.drop_first();
            assert(tail1 =~= ms.subrange(1, 4));
            assert(tail2 =~= ms.subrange(2, 4));
            assert(tail3 =~= ms.subrange(3, 4));
            assert(tail4 =~= Seq::<(Seq<char>, JsonV)>::empty());
            assert(jv_get(ms, key_type()) == Some(JsonV::Str(tag_event())));
            assert(jv_get(ms, key_name()) == jv_get(tail1, key_name()));
            assert(jv_get(tail1, key_name()) == Some(JsonV::Str(ev.name)));
            assert(jv_get(ms, key_inputs()) == jv_get(tail1, key_inputs()));
            assert(jv_get(tail1, key_inputs()) == jv_get(tail2, key_inputs()));
            assert(jv_get(tail2, key_inputs()) == Some(JsonV::Arr(encode_evars(ev.inputs))));
            assert(jv_get(ms, key_anonymous()) == jv_get(tail1, key_anonymous()));
            assert(jv_get(tail1, key_anonymous()) == jv_get(tail2, key_anonymous()));
            assert(jv_get(tail2, key_anonymous()) == jv_get(tail3, key_anonymous()));
            assert(jv_get(tail3, key_anonymous()) == Some(JsonV::Bool(ev.anonymous)));
            lemma_evars_field_get(ms, key_inputs());
            lemma_rt_evars(ev.inputs);
        },
    }
}

/// Decoding an encoded entry sequence returns exactly that sequence.
pub proof fn lemma_rt_entries(es: Seq<AbiV>)
    ensures
        decode_entries(encode_entries(es)) == Ok::<Seq<AbiV>, SchemaErrorV>(es),
    decreases es.len(),
{
    if es.len() == 0 {
        assert(es =~= Seq::<AbiV>::empty());
    } else {
        let items = encode_entries(es);
        assert(items[0] == encode_entry(es[0]));
        assert(items.drop_first() =~= encode_entries(es.drop_first()));
        lemma_rt_entry(es[0]);
        lemma_rt_entries(es.drop_first());
        assert(seq![es[0]] + es.drop_first() =~= es);
    }
}

/// Every element of a well-formed array value is well-formed.
pub proof fn lemma_wf_arr_elem(items: Seq<JsonV>, i: int)
    requires
        crate::json::wf_jv(JsonV::Arr(items)),
        0 <= i < items.len(),
    ensures
        crate::json::wf_jv(items[i]),
{
    crate::json::lemma_wf_arr_iff(items);
}

/// An encoded parameter is a well-formed JSON value.
pub proof fn lemma_wf_var(v: VariableV)
    ensures
        crate::json::wf_jv(encode_var(v)),
    decreases v,
{
    let base = seq![(key_name(), JsonV::Str(v.name)), (key_type(), JsonV::Str(v.ty))];
    match v.components {
        None => {
            assert forall|i: int| 0 <= i < base.len() implies crate::json::wf_jv(
                #[trigger] base[i].1,
            ) by {
                assert(base[0].1 == JsonV::Str(v.name));
                assert(base[1].1 == JsonV::Str(v.ty));
            }
        },
        Some(cs) => {
            lemma_wf_vars(cs);
            let ms = base.push((key_components(), JsonV::Arr(encode_vars(cs))));
            assert forall|i: int| 0 <= i < ms.len() implies crate::json::wf_jv(
                #[trigger] ms[i].1,
            ) by {
                assert(ms[0].1 == JsonV::Str(v.name));
                assert(ms[1].1 == JsonV::Str(v.ty));
                assert(ms[2].1 == JsonV::Arr(encode_vars(cs)));
            }
        },
    }
}

/// An encoded parameter list is a well-formed JSON array.
pub proof fn lemma_wf_vars(vs: Seq<VariableV>)
    ensures
        crate::json::wf_jv(JsonV::Arr(encode_vars(vs))),
    decreases vs,
{
    let items = encode_vars(vs);
    if vs.len() == 0 {
    } else {
        lemma_wf_var(vs[0]);
        lemma_wf_vars(vs.drop_first());
        let rest = encode_vars(vs.drop_first());
        assert(items.drop_first() =~= rest);
        assert forall|i: int| 0 <= i < items.len() implies crate::json::wf_jv(
            #[trigger] items[i],
        ) by {
            if i == 0 {
                assert(items[0] == encode_var(vs[0]));
            } else {
                assert(items[i] == rest[i - 1]);
                lemma_wf_arr_elem(rest, i - 1);
            }
        }
    }
}

/// An encoded event parameter is a well-formed JSON value.
pub proof fn lemma_wf_evar(v: EventVariableV)
    ensures
        crate::json::wf_jv(encode_evar(v)),
    decreases v,
{
    let base = seq![
        (key_name(), JsonV::Str(v.name)),
        (key_type(), JsonV::Str(v.ty)),
        (key_indexed(), JsonV::Bool(v.indexed)),
    ];
    match v.components {
        None => {
            assert forall|i: int| 0 <= i < base.len() implies crate::json::wf_jv(
                #[trigger] base[i].1,
            ) by {
                assert(base[0].1 == JsonV::Str(v.name));
                assert(base[1].1 == JsonV::Str(v.ty));
                assert(base[2].1 == JsonV::Bool(v.indexed));
            }
        },
        Some(cs) => {
            lemma_wf_evars(cs);
            let ms = base.push((key_components(), JsonV::Arr(encode_evars(cs))));
            assert forall|i: int| 0 <= i < ms.len() implies crate::json::wf_jv(
                #[trigger] ms[i].1,
            ) by {
                assert(ms[0].1 == JsonV::Str(v.name));
                assert(ms[1].1 == JsonV::Str(v.ty));
                assert(ms[2].1 == JsonV::Bool(v.indexed));
                assert(ms[3].1 == JsonV::Arr(encode_evars(cs)));
            }
        },
    }
}

/// An encoded event parameter list is a well-formed JSON array.
pub proof fn lemma_wf_evars(vs: Seq<EventVariableV>)
    ensures
        crate::json::wf_jv(JsonV::Arr(encode_evars(vs))),
    decreases vs,
{
    let items = encode_evars(vs);
    if vs.len() == 0 {
    } else {
        lemma_wf_evar(vs[0]);
        lemma_wf_evars(vs.drop_first());
        let rest = encode_evars(vs.drop_first());
        assert(items.drop_first() =~= rest);
        assert forall|i: int| 0 <= i < items.len() implies crate::json::wf_jv(
            #[trigger] items[i],
        ) by {
            if i == 0 {
                assert(items[0] == encode_evar(vs[0]));
            } else {
                assert(items[i] == rest[i - 1]);
                lemma_wf_arr_elem(rest, i - 1);
            }
        }
    }
}

/// An encoded entry is a well-formed JSON value.
pub proof fn lemma_wf_entry(e: AbiV)
    ensures
        crate::json::wf_jv(encode_entry(e)),
{
    match e {
        AbiV::Function(f) => {
            lemma_wf_vars(f.inputs);
            lemma_wf_vars(f.outputs);
            let base = seq![
                (key_type(), JsonV::Str(tag_function())),
                (key_name(), JsonV::Str(f.name)),
                (key_inputs(), JsonV::Arr(encode_vars(f.inputs))),
                (key_outputs(), JsonV::Arr(encode_vars(f.outputs))),
                (key_mutability(), JsonV::Str(f.state_mutability)),
            ];
            let ms = push_flags(base, f.constant, f.payable);
            crate::json::lemma_wf_obj_iff(ms);
            assert forall|i: int| 0 <= i < ms.len() implies crate::json::wf_jv(
                #[trigger] ms[i].1,
            ) by {
                if i < 5 {
                    assert(ms[i] == base[i]);
                } else {
                    assert(ms[i].1 is Bool);
                }
            }
        },
        AbiV::Constructor(c) => {
            lemma_wf_vars(c.inputs);
            let base = seq![
                (key_type(), JsonV::Str(tag_constructor())),
                (key_inputs(), JsonV::Arr(encode_vars(c.inputs))),
                (key_mutability(), JsonV::Str(c.state_mutability)),
            ];
            let ms = push_flags(base, None, c.payable);
            crate::json::lemma_wf_obj_iff(ms);
            assert forall|i: int| 0 <= i < ms.len() implies crate::json::wf_jv(
                #[trigger] ms[i].1,
            ) by {
                if i < 3 {
                    assert(ms[i] == base[i]);
                } else {
                    assert(ms[i].1 is Bool);
                }
            }
        },
        AbiV::Fallback(fb) => {
            let ms = seq![
                (key_type(), JsonV::Str(tag_fallback())),
                (key_mutability(), JsonV::Str(fb.state_mutability)),
            ];
            crate::json::lemma_wf_obj_iff(ms);
            assert forall|i: int| 0 <= i < ms.len() implies crate::json::wf_jv(
                #[trigger] ms[i].1,
            ) by {
                assert(ms[0].1 == JsonV::Str(tag_fallback()));
                assert(ms[1].1 == JsonV::Str(fb.state_mutability));
            }
        },
        AbiV::Event(ev) => {
            lemma_wf_evars(ev.inputs);
            let ms = seq![
                (key_type(), JsonV::Str(tag_event())),
                (key_name(), JsonV::Str(ev.name)),
                (key_inputs(), JsonV::Arr(encode_evars(ev.inputs))),
                (key_anonymous(), JsonV::Bool(ev.anonymous)),
            ];
            crate::json::lemma_wf_obj_iff(ms);
            assert forall|i: int| 0 <= i < ms.len() implies crate::json::wf_jv(
                #[trigger] ms[i].1,
            ) by {
                assert(ms[0].1 == JsonV::Str(tag_event()));
                assert(ms[1].1 == JsonV::Str(ev.name));
                assert(ms[2].1 == JsonV::Arr(encode_evars(ev.inputs)));
                assert(ms[3].1 == JsonV::Bool(ev.anonymous));
            }
        },
    }
}

/// An encoded entry sequence is a well-formed JSON array.
pub proof fn lemma_wf_entries(es: Seq<AbiV>)
    ensures
        crate::json::wf_jv(abi_to_jv(es)),
    decreases es.len(),
{
    let items = encode_entries(es);
    if es.len() == 0 {
    } else {
        lemma_wf_entry(es[0]);
        lemma_wf_entries(es.drop_first());
        let rest = encode_entries(es.drop_first());
        assert(items.drop_first() =~= rest);
        assert(crate::json::wf_jv(JsonV::Arr(rest)));
        assert forall|i: int| 0 <= i < items.len() implies crate::json::wf_jv(
            #[trigger] items[i],
        ) by {
            if i == 0 {
                assert(items[0] == encode_entry(es[0]));
            } else {
                assert(items[i] == rest[i - 1]);
                assert(crate::json::wf_jv(JsonV::Arr(rest)));
                lemma_wf_arr_elem(rest, i - 1);
            }
        }
    }
}

/// Round trip: printing an encoded entry sequence, in either layout, and
/// decoding the text yields exactly that sequence.
pub proof fn lemma_abi_text_round_trip(es: Seq<AbiV>, pretty: bool)
    ensures
        abi_from_text(crate::json::print_jv(abi_to_jv(es), pretty, 0)) == Ok::<
            Seq<AbiV>,
            SchemaErrorV,
        >(es),
{
    lemma_wf_entries(es);
    crate::json::lemma_print_parse_text(abi_to_jv(es), pretty);
    lemma_rt_entries(es);
}

/// Decode, encode, decode: the second decode agrees with the first, for
/// every text the decoder accepts.
pub proof fn lemma_decode_encode_decode(s: Seq<char>, pretty: bool)
    requires
        abi_from_text(s) is Ok,
    ensures
        abi_from_text(crate::json::print_jv(abi_to_jv(abi_from_text(s)->Ok_0), pretty, 0))
            == abi_from_text(s),
{
    lemma_abi_text_round_trip(abi_from_text(s)->Ok_0, pretty);
}

/// The first member with the given key, if any.
#[verifier::loop_isolation(false)]
pub fn jv_get_pub<'a>(ms: &'a Vec<(String, Json)>, key: &str) -> (r: Option<&'a Json>)
    ensures
        match r {
            Some(v) => jv_get(ms.deep_view(), key@) == Some(v.deep_view()),
            None => jv_get(ms.deep_view(), key@) is None,
        },
{
    let ghost dv = ms.deep_view();
    let mut i: usize = 0;
    proof {
        assert(dv.skip(0) =~= dv);
    }
    while i < ms.len()
        invariant
            i <= ms@.len(),
            jv_get(dv, key@) == jv_get(dv.skip(i as int), key@),
        decreases ms@.len() - i,
    {
        proof {
            assert(dv[i as int] == ms@[i as int].deep_view());
            assert(dv.skip(i as int)[0] == dv[i as int]);
            assert(dv.skip(i as int).drop_first() =~= dv.skip(i as int + 1));
        }
        if str_eq(ms[i].0.as_str(), key) {
            return Some(&ms[i].1);
        }
        i += 1;
    }
    proof {
        assert(dv.skip(ms@.len() as int) =~= Seq::<(Seq<char>, JsonV)>::empty());
    }
    None
}

/// A required string member.
pub fn str_field_pub(ms: &Vec<(String, Json)>, key: &str) -> (r: Result<String, SchemaError>)
    ensures
        match r {
            Ok(s) => str_field(ms.deep_view(), key@) == Ok::<Seq<char>, SchemaErrorV>(s@),
            Err(e) => str_field(ms.deep_view(), key@) == Err::<Seq<char>, SchemaErrorV>(
                e.deep_view(),
            ),
        },
{
    match jv_get_pub(ms, key) {
        Some(Json::Str(s)) => Ok(s.clone()),
        Some(_) => Err(SchemaError::UnrecognizedEntry),
        None => Err(SchemaError::MissingField(String::from_str(key))),
    }
}

/// A required boolean member.
fn bool_field_exec(ms: &Vec<(String, Json)>, key: &str) -> (r: Result<bool, SchemaError>)
    ensures
        match r {
            Ok(b) => bool_field(ms.deep_view(), key@) == Ok::<bool, SchemaErrorV>(b),
            Err(e) => bool_field(ms.deep_view(), key@) == Err::<bool, SchemaErrorV>(
                e.deep_view(),
            ),
        },
{
    match jv_get_pub(ms, key) {
        Some(Json::Bool(b)) => Ok(*b),
        Some(_) => Err(SchemaError::UnrecognizedEntry),
        None => Err(SchemaError::MissingField(String::from_str(key))),
    }
}

/// An optional boolean member.
fn opt_bool_field_exec(ms: &Vec<(String, Json)>, key: &str) -> (r: Result<
    Option<bool>,
    SchemaError,
>)
    ensures
        match r {
            Ok(b) => opt_bool_field(ms.deep_view(), key@) == Ok::<Option<bool>, SchemaErrorV>(b),
            Err(e) => opt_bool_field(ms.deep_view(), key@) == Err::<Option<bool>, SchemaErrorV>(
                e.deep_view(),
            ),
        },
{
    match jv_get_pub(ms, key) {
        Some(Json::Bool(b)) => Ok(Some(*b)),
        Some(Json::Null) => Ok(None),
        Some(_) => Err(SchemaError::UnrecognizedEntry),
        None => Ok(None),
    }
}

/// The member keys and tags, as string literals.
pub proof fn lemma_key_lits()
    ensures
        "type"@ == key_type(),
        "name"@ == key_name(),
        "inputs"@ == key_inputs(),
        "outputs"@ == key_outputs(),
        "stateMutability"@ == key_mutability(),
        "constant"@ == key_constant(),
        "payable"@ == key_payable(),
        "anonymous"@ == key_anonymous(),
        "indexed"@ == key_indexed(),
        "components"@ == key_components(),
        "function"@ == tag_function(),
        "constructor"@ == tag_constructor(),
        "fallback"@ == tag_fallback(),
        "event"@ == tag_event(),
{
    reveal_strlit("type");
    reveal_strlit("name");
    reveal_strlit("inputs");
    reveal_strlit("outputs");
    reveal_strlit("stateMutability");
    reveal_strlit("constant");
    reveal_strlit("payable");
    reveal_strlit("anonymous");
    reveal_strlit("indexed");
    reveal_strlit("components");
    reveal_strlit("function");
    reveal_strlit("constructor");
    reveal_strlit("fallback");
    reveal_strlit("event");
    assert("type"@ =~= key_type());
    assert("name"@ =~= key_name());
    assert("inputs"@ =~= key_inputs());
    assert("outputs"@ =~= key_outputs());
    assert("stateMutability"@ =~= key_mutability());
    assert("constant"@ =~= key_constant());
    assert("payable"@ =~= key_payable());
    assert("anonymous"@ =~= key_anonymous());
    assert("indexed"@ =~= key_indexed());
    assert("components"@ =~= key_components());
    assert("function"@ =~= tag_function());
    assert("constructor"@ =~= tag_constructor());
    assert("fallback"@ =~= tag_fallback());
    assert("event"@ =~= tag_event());
}

/// Decodes a parameter's optional `components` member.
#[verifier::loop_isolation(false)]
fn var_components_exec(ms: &Vec<(String, Json)>) -> (r: Result<Option<Vec<Variable>>, SchemaError>)
    ensures
        match r {
            Ok(cs) => var_components(ms.deep_view()) == Ok::<
                Option<Seq<VariableV>>,
                SchemaErrorV,
            >(cs.deep_view()),
            Err(e) => var_components(ms.deep_view()) == Err::<
                Option<Seq<VariableV>>,
                SchemaErrorV,
            >(e.deep_view()),
        },
    decreases ms,
{
    let ghost dv = ms.deep_view();
    let mut i: usize = 0;
    proof {
        lemma_key_lits();
        assert(dv.skip(0) =~= dv);
    }
    while i < ms.len()
        invariant
            i <= ms@.len(),
            var_components(dv) == var_components(dv.skip(i as int)),
        decreases ms@.len() - i,
    {
        proof {
            assert(dv[i as int] == ms@[i as int].deep_view());
            assert(dv.skip(i as int)[0] == dv[i as int]);
            assert(dv.skip(i as int).drop_first() =~= dv.skip(i as int + 1));
        }
        if str_eq(ms[i].0.as_str(), "components") {
            match &ms[i].1 {
                Json::Arr(items) => {
                    proof {
                        crate::json::lemma_arr_view(items);
                    }
                    match decode_vars_exec(items) {
                        Ok(vs) => {
                            return Ok(Some(vs));
                        },
                        Err(e) => {
                            return Err(e);
                        },
                    }
                },
                Json::Null => {
                    return Ok(None);
                },
                _ => {
                    return Err(SchemaError::UnrecognizedEntry);
                },
            }
        }
        i += 1;
    }
    proof {
        assert(dv.skip(ms@.len() as int) =~= Seq::<(Seq<char>, JsonV)>::empty());
    }
    Ok(None)
}

/// Decodes one parameter object.
fn decode_var_exec(j: &Json) -> (r: Result<Variable, SchemaError>)
    ensures
        match r {
            Ok(v) => decode_var(j.deep_view()) == Ok::<VariableV, SchemaErrorV>(v.deep_view()),
            Err(e) => decode_var(j.deep_view()) == Err::<VariableV, SchemaErrorV>(e.deep_view()),
        },
    decreases j,
{
    match j {
        Json::Obj(ms) => {
            proof {
                lemma_key_lits();
                crate::json::lemma_obj_view(ms);
            }
            let name = match str_field_pub(ms, "name") {
                Ok(s) => s,
                Err(e) => {
                    return Err(e);
                },
            };
            let ty = match str_field_pub(ms, "type") {
                Ok(s) => s,
                Err(e) => {
                    return Err(e);
                },
            };
            match var_components_exec(ms) {
                Ok(components) => {
                    let v = Variable { name, ty, components };
                    proof {
                        lemma_var_view(&v);
                    }
                    Ok(v)
                },
                Err(e) => Err(e),
            }
        },
        _ => Err(SchemaError::UnrecognizedEntry),
    }
}

/// Decodes a parameter array in order.
#[verifier::loop_isolation(false)]
fn decode_vars_exec(items: &Vec<Json>) -> (r: Result<Vec<Variable>, SchemaError>)
    ensures
        match r {
            Ok(vs) => decode_vars(items.deep_view()) == Ok::<Seq<VariableV>, SchemaErrorV>(
                vs.deep_view(),
            ),
            Err(e) => decode_vars(items.deep_view()) == Err::<Seq<VariableV>, SchemaErrorV>(
                e.deep_view(),
            ),
        },
    decreases items,
{
    let ghost dv = items.deep_view();
    let mut out: Vec<Variable> = Vec::new();
    let mut i: usize = 0;
    proof {
        assert(dv.skip(0) =~= dv);
        assert(out.deep_view() =~= Seq::<VariableV>::empty());
    }
    while i < items.len()
        invariant
            i <= items@.len(),
            out.deep_view().len() == i,
            match decode_vars(dv.skip(i as int)) {
                Ok(vs) => decode_vars(dv) == Ok::<Seq<VariableV>, SchemaErrorV>(
                    out.deep_view() + vs,
                ),
                Err(e) => decode_vars(dv) == Err::<Seq<VariableV>, SchemaErrorV>(e),
            },
        decreases items@.len() - i,
    {
        proof {
            assert(dv[i as int] == items@[i as int].deep_view());
            assert(dv.skip(i as int)[0] == dv[i as int]);
            assert(dv.skip(i as int).drop_first() =~= dv.skip(i as int + 1));
        }
        match decode_var_exec(&items[i]) {
            Ok(v) => {
                let ghost old_out = out;
                let ghost prev = out.deep_view();
                out.push(v);
                proof {
                    lemma_push_var_view(old_out, out, v);
                    if decode_vars(dv.skip(i as int + 1)) is Ok {
                        let vs2 = decode_vars(dv.skip(i as int + 1))->Ok_0;
                        assert(prev + (seq![v.deep_view()] + vs2) =~= out.deep_view() + vs2);
                    }
                }
            },
            Err(e) => {
                return Err(e);
            },
        }
        i += 1;
    }
    proof {
        assert(dv.skip(items@.len() as int) =~= Seq::<JsonV>::empty());
        assert(out.deep_view() + Seq::<VariableV>::empty() =~= out.deep_view());
    }
    Ok(out)
}

/// Pushing onto a parameter vector pushes its deep view.
pub proof fn lemma_push_var_view(a: Vec<Variable>, b: Vec<Variable>, x: Variable)
    requires
        b@ == a@.push(x),
    ensures
        b.deep_view() == a.deep_view().push(x.deep_view()),
{
    let l = b.deep_view();
    let r = a.deep_view().push(x.deep_view());
    assert forall|k: int| 0 <= k < l.len() implies l[k] == r[k] by {
        assert(l[k] == b@[k].deep_view());
        if k < a@.len() {
            assert(b@[k] == a@[k]);
            assert(r[k] == a@[k].deep_view());
        } else {
            assert(b@[k] == x);
        }
    }
    assert(l =~= r);
}

/// The recursive parameter view agrees with the elementwise one.
pub proof fn lemma_vars_view(cs: Seq<Variable>)
    ensures
        vars_view(cs).len() == cs.len(),
        forall|k: int| 0 <= k < cs.len() ==> vars_view(cs)[k] == #[trigger] cs[k].deep_view(),
    decreases cs.len(),
{
    if cs.len() > 0 {
        lemma_vars_view(cs.drop_first());
        assert(vars_view(cs) == seq![cs[0].deep_view()] + vars_view(cs.drop_first()));
        assert forall|k: int| 0 <= k < cs.len() implies vars_view(cs)[k] == #[trigger] cs[k].deep_view() by {
            if k == 0 {
                assert(vars_view(cs)[0] == cs[0].deep_view());
            } else {
                assert(vars_view(cs)[k] == vars_view(cs.drop_first())[k - 1]);
                assert(cs.drop_first()[k - 1] == cs[k]);
            }
        }
    }
}

/// The recursive event parameter view agrees with the elementwise one.
pub proof fn lemma_evars_view(cs: Seq<EventVariable>)
    ensures
        evars_view(cs).len() == cs.len(),
        forall|k: int| 0 <= k < cs.len() ==> evars_view(cs)[k] == #[trigger] cs[k].deep_view(),
    decreases cs.len(),
{
    if cs.len() > 0 {
        lemma_evars_view(cs.drop_first());
        assert(evars_view(cs) == seq![cs[0].deep_view()] + evars_view(cs.drop_first()));
        assert forall|k: int| 0 <= k < cs.len() implies evars_view(cs)[k] == #[trigger] cs[k].deep_view() by {
            if k == 0 {
                assert(evars_view(cs)[0] == cs[0].deep_view());
            } else {
                assert(evars_view(cs)[k] == evars_view(cs.drop_first())[k - 1]);
                assert(cs.drop_first()[k - 1] == cs[k]);
            }
        }
    }
}

/// The deep view of a parameter, by fields.
pub proof fn lemma_var_view(v: &Variable)
    ensures
        v.deep_view() == (VariableV {
            name: v.name@,
            ty: v.ty@,
            components: match &v.components {
                None => None,
                Some(cs) => Some(cs.deep_view()),
            },
        }),
{
    match &v.components {
        None => {},
        Some(cs) => {
            lemma_vars_view(cs@);
            let a = vars_view(cs@);
            let b = cs.deep_view();
            assert forall|k: int| 0 <= k < a.len() implies a[k] == b[k] by {
                assert(a[k] == cs@[k].deep_view());
                assert(b[k] == cs@[k].deep_view());
            }
            assert(a =~= b);
        },
    }
}

/// The deep view of an event parameter, by fields.
pub proof fn lemma_evar_view(v: &EventVariable)
    ensures
        v.deep_view() == (EventVariableV {
            name: v.name@,
            ty: v.ty@,
            components: match &v.components {
                None => None,
                Some(cs) => Some(cs.deep_view()),
            },
            indexed: v.indexed,
        }),
{
    match &v.components {
        None => {},
        Some(cs) => {
            lemma_evars_view(cs@);
            let a = evars_view(cs@);
            let b = cs.deep_view();
            assert forall|k: int| 0 <= k < a.len() implies a[k] == b[k] by {
                assert(a[k] == cs@[k].deep_view());
                assert(b[k] == cs@[k].deep_view());
            }
            assert(a =~= b);
        },
    }
}

/// Pushing onto an event parameter vector pushes its deep view.
pub proof fn lemma_push_evar_view(
    a: Vec<EventVariable>,
    b: Vec<EventVariable>,
    x: EventVariable,
)
    requires
        b@ == a@.push(x),
    ensures
        b.deep_view() == a.deep_view().push(x.deep_view()),
{
    let l = b.deep_view();
    let r = a.deep_view().push(x.deep_view());
    assert forall|k: int| 0 <= k < l.len() implies l[k] == r[k] by {
        assert(l[k] == b@[k].deep_view());
        if k < a@.len() {
            assert(b@[k] == a@[k]);
            assert(r[k] == a@[k].deep_view());
        } else {
            assert(b@[k] == x);
        }
    }
    assert(l =~= r);
}

/// Decodes an event parameter's optional `components` member.
#[verifier::loop_isolation(false)]
fn evar_components_exec(ms: &Vec<(String, Json)>) -> (r: Result<
    Option<Vec<EventVariable>>,
    SchemaError,
>)
    ensures
        match r {
            Ok(cs) => evar_components(ms.deep_view()) == Ok::<
                Option<Seq<EventVariableV>>,
                SchemaErrorV,
            >(cs.deep_view()),
            Err(e) => evar_components(ms.deep_view()) == Err::<
                Option<Seq<EventVariableV>>,
                SchemaErrorV,
            >(e.deep_view()),
        },
    decreases ms,
{
    let ghost dv = ms.deep_view();
    let mut i: usize = 0;
    proof {
        lemma_key_lits();
        assert(dv.skip(0) =~= dv);
    }
    while i < ms.len()
        invariant
            i <= ms@.len(),
            evar_components(dv) == evar_components(dv.skip(i as int)),
        decreases ms@.len() - i,
    {
        proof {
            assert(dv[i as int] == ms@[i as int].deep_view());
            assert(dv.skip(i as int)[0] == dv[i as int]);
            assert(dv.skip(i as int).drop_first() =~= dv.skip(i as int + 1));
        }
        if str_eq(ms[i].0.as_str(), "components") {
            match &ms[i].1 {
                Json::Arr(items) => {
                    proof {
                        crate::json::lemma_arr_view(items);
                    }
                    match decode_evars_exec(items) {
                        Ok(vs) => {
                            return Ok(Some(vs));
                        },
                        Err(e) => {
                            return Err(e);
                        },
                    }
                },
                Json::Null => {
                    return Ok(None);
                },
                _ => {
                    return Err(SchemaError::UnrecognizedEntry);
                },
            }
        }
        i += 1;
    }
    proof {
        assert(dv.skip(ms@.len() as int) =~= Seq::<(Seq<char>, JsonV)>::empty());
    }
    Ok(None)
}

/// Decodes one event parameter object.
fn decode_evar_exec(j: &Json) -> (r: Result<EventVariable, SchemaError>)
    ensures
        match r {
            Ok(v) => decode_evar(j.deep_view()) == Ok::<EventVariableV, SchemaErrorV>(
                v.deep_view(),
            ),
            Err(e) => decode_evar(j.deep_view()) == Err::<EventVariableV, SchemaErrorV>(
                e.deep_view(),
            ),
        },
    decreases j,
{
    match j {
        Json::Obj(ms) => {
            proof {
                lemma_key_lits();
                crate::json::lemma_obj_view(ms);
            }
            let name = match str_field_pub(ms, "name") {
                Ok(s) => s,
                Err(e) => {
                    return Err(e);
                },
            };
            let ty = match str_field_pub(ms, "type") {
                Ok(s) => s,
                Err(e) => {
                    return Err(e);
                },
            };
            let indexed = match bool_field_exec(ms, "indexed") {
                Ok(b) => b,
                Err(e) => {
                    return Err(e);
                },
            };
            match evar_components_exec(ms) {
                Ok(components) => {
                    let v = EventVariable { name, ty, components, indexed };
                    proof {
                        lemma_evar_view(&v);
                    }
                    Ok(v)
                },
                Err(e) => Err(e),
            }
        },
        _ => Err(SchemaError::UnrecognizedEntry),
    }
}

/// Decodes an event parameter array in order.
#[verifier::loop_isolation(false)]
fn decode_evars_exec(items: &Vec<Json>) -> (r: Result<Vec<EventVariable>, SchemaError>)
    ensures
        match r {
            Ok(vs) => decode_evars(items.deep_view()) == Ok::<Seq<EventVariableV>, SchemaErrorV>(
                vs.deep_view(),
            ),
            Err(e) => decode_evars(items.deep_view()) == Err::<Seq<EventVariableV>, SchemaErrorV>(
                e.deep_view(),
            ),
        },
    decreases items,
{
    let ghost dv = items.deep_view();
    let mut out: Vec<EventVariable> = Vec::new();
    let mut i: usize = 0;
    proof {
        assert(dv.skip(0) =~= dv);
        assert(out.deep_view() =~= Seq::<EventVariableV>::empty());
    }
    while i < items.len()
        invariant
            i <= items@.len(),
            out.deep_view().len() == i,
            match decode_evars(dv.skip(i as int)) {
                Ok(vs) => decode_evars(dv) == Ok::<Seq<EventVariableV>, SchemaErrorV>(
                    out.deep_view() + vs,
                ),
                Err(e) => decode_evars(dv) == Err::<Seq<EventVariableV>, SchemaErrorV>(e),
            },
        decreases items@.len() - i,
    {
        proof {
            assert(dv[i as int] == items@[i as int].deep_view());
            assert(dv.skip(i as int)[0] == dv[i as int]);
            assert(dv.skip(i as int).drop_first() =~= dv.skip(i as int + 1));
        }
        match decode_evar_exec(&items[i]) {
            Ok(v) => {
                let ghost old_out = out;
                let ghost prev = out.deep_view();
                out.push(v);
                proof {
                    lemma_push_evar_view(old_out, out, v);
                    if decode_evars(dv.skip(i as int + 1)) is Ok {
                        let vs2 = decode_evars(dv.skip(i as int + 1))->Ok_0;
                        assert(prev + (seq![v.deep_view()] + vs2) =~= out.deep_view() + vs2);
                    }
                }
            },
            Err(e) => {
                return Err(e);
            },
        }
        i += 1;
    }
    proof {
        assert(dv.skip(items@.len() as int) =~= Seq::<JsonV>::empty());
        assert(out.deep_view() + Seq::<EventVariableV>::empty() =~= out.deep_view());
    }
    Ok(out)
}

/// A required parameter-array member, decoded in order.
#[verifier::loop_isolation(false)]
fn vars_field_exec(ms: &Vec<(String, Json)>, key: &str) -> (r: Result<Vec<Variable>, SchemaError>)
    ensures
        match r {
            Ok(vs) => vars_field(ms.deep_view(), key@) == Ok::<Seq<VariableV>, SchemaErrorV>(
                vs.deep_view(),
            ),
            Err(e) => vars_field(ms.deep_view(), key@) == Err::<Seq<VariableV>, SchemaErrorV>(
                e.deep_view(),
            ),
        },
    decreases ms, 0int,
{
    let ghost dv = ms.deep_view();
    let mut i: usize = 0;
    proof {
        assert(dv.skip(0) =~= dv);
    }
    while i < ms.len()
        invariant
            i <= ms@.len(),
            vars_field(dv, key@) == vars_field(dv.skip(i as int), key@),
        decreases ms@.len() - i,
    {
        proof {
            assert(dv[i as int] == ms@[i as int].deep_view());
            assert(dv.skip(i as int)[0] == dv[i as int]);
            assert(dv.skip(i as int).drop_first() =~= dv.skip(i as int + 1));
        }
        if str_eq(ms[i].0.as_str(), key) {
            match &ms[i].1 {
                Json::Arr(items) => {
                    proof {
                        crate::json::lemma_arr_view(items);
                    }
                    return decode_vars_exec(items);
                },
                _ => {
                    return Err(SchemaError::UnrecognizedEntry);
                },
            }
        }
        i += 1;
    }
    proof {
        assert(dv.skip(ms@.len() as int) =~= Seq::<(Seq<char>, JsonV)>::empty());
    }
    Err(SchemaError::MissingField(String::from_str(key)))
}

/// A required event-parameter-array member, decoded in order.
#[verifier::loop_isolation(false)]
fn evars_field_exec(ms: &Vec<(String, Json)>, key: &str) -> (r: Result<
    Vec<EventVariable>,
    SchemaError,
>)
    ensures
        match r {
            Ok(vs) => evars_field(ms.deep_view(), key@) == Ok::<Seq<EventVariableV>, SchemaErrorV>(
                vs.deep_view(),
            ),
            Err(e) => evars_field(ms.deep_view(), key@) == Err::<
                Seq<EventVariableV>,
                SchemaErrorV,
            >(e.deep_view()),
        },
    decreases ms, 0int,
{
    let ghost dv = ms.deep_view();
    let mut i: usize = 0;
    proof {
        assert(dv.skip(0) =~= dv);
    }
    while i < ms.len()
        invariant
            i <= ms@.len(),
            evars_field(dv, key@) == evars_field(dv.skip(i as int), key@),
        decreases ms@.len() - i,
    {
        proof {
            assert(dv[i as int] == ms@[i as int].deep_view());
            assert(dv.skip(i as int)[0] == dv[i as int]);
            assert(dv.skip(i as int).drop_first() =~= dv.skip(i as int + 1));
        }
        if str_eq(ms[i].0.as_str(), key) {
            match &ms[i].1 {
                Json::Arr(items) => {
                    proof {
                        crate::json::lemma_arr_view(items);
                    }
                    return decode_evars_exec(items);
                },
                _ => {
                    return Err(SchemaError::UnrecognizedEntry);
                },
            }
        }
        i += 1;
    }
    proof {
        assert(dv.skip(ms@.len() as int) =~= Seq::<(Seq<char>, JsonV)>::empty());
    }
    Err(SchemaError::MissingField(String::from_str(key)))
}

/// Decodes one ABI entry: the `type` member selects the variant.
fn decode_entry_exec(j: &Json) -> (r: Result<Abi, SchemaError>)
    ensures
        match r {
            Ok(v) => decode_entry(j.deep_view()) == Ok::<AbiV, SchemaErrorV>(v.deep_view()),
            Err(e) => decode_entry(j.deep_view()) == Err::<AbiV, SchemaErrorV>(e.deep_view()),
        },
    decreases j, 1int,
{
    match j {
        Json::Obj(ms) => {
            proof {
                lemma_key_lits();
                crate::json::lemma_obj_view(ms);
            }
            let tag = match jv_get_pub(ms, "type") {
                Some(Json::Str(t)) => t,
                Some(_) => {
                    return Err(SchemaError::UnrecognizedEntry);
                },
                None => {
                    return Err(SchemaError::UnrecognizedEntry);
                },
            };
            if str_eq(tag.as_str(), "function") {
                let name = match str_field_pub(ms, "name") {
                    Ok(s) => s,
                    Err(e) => {
                        return Err(e);
                    },
                };
                let inputs = match vars_field_exec(ms, "inputs") {
                    Ok(v) => v,
                    Err(e) => {
                        return Err(e);
                    },
                };
                let outputs = match vars_field_exec(ms, "outputs") {
                    Ok(v) => v,
                    Err(e) => {
                        return Err(e);
                    },
                };
                let state_mutability = match str_field_pub(ms, "stateMutability") {
                    Ok(s) => s,
                    Err(e) => {
                        return Err(e);
                    },
                };
                let constant = match opt_bool_field_exec(ms, "constant") {
                    Ok(b) => b,
                    Err(e) => {
                        return Err(e);
                    },
                };
                let payable = match opt_bool_field_exec(ms, "payable") {
                    Ok(b) => b,
                    Err(e) => {
                        return Err(e);
                    },
                };
                Ok(
                    Abi::Function(
                        Function {
                            name,
                            inputs,
                            outputs,
                            stateMutability: state_mutability,
                            constant,
                            payable,
                        },
                    ),
                )
            } else if str_eq(tag.as_str(), "constructor") {
                let inputs = match vars_field_exec(ms, "inputs") {
                    Ok(v) => v,
                    Err(e) => {
                        return Err(e);
                    },
                };
                let state_mutability = match str_field_pub(ms, "stateMutability") {
                    Ok(s) => s,
                    Err(e) => {
                        return Err(e);
                    },
                };
                let payable = match opt_bool_field_exec(ms, "payable") {
                    Ok(b) => b,
                    Err(e) => {
                        return Err(e);
                    },
                };
                Ok(Abi::Constructor(Constructor { inputs, stateMutability: state_mutability, payable }))
            } else if str_eq(tag.as_str(), "fallback") {
                let state_mutability = match str_field_pub(ms, "stateMutability") {
                    Ok(s) => s,
                    Err(e) => {
                        return Err(e);
                    },
                };
                Ok(Abi::Fallback(Fallback { stateMutability: state_mutability }))
            } else if str_eq(tag.as_str(), "event") {
                let name = match str_field_pub(ms, "name") {
                    Ok(s) => s,
                    Err(e) => {
                        return Err(e);
                    },
                };
                let inputs = match evars_field_exec(ms, "inputs") {
                    Ok(v) => v,
                    Err(e) => {
                        return Err(e);
                    },
                };
                let anonymous = match bool_field_exec(ms, "anonymous") {
                    Ok(b) => b,
                    Err(e) => {
                        return Err(e);
                    },
                };
                Ok(Abi::Event(Event { name, inputs, anonymous }))
            } else {
                Err(SchemaError::UnrecognizedEntry)
            }
        },
        _ => Err(SchemaError::UnrecognizedEntry),
    }
}

/// Pushing onto an entry vector pushes its deep view.
pub proof fn lemma_push_abi_view(a: Vec<Abi>, b: Vec<Abi>, x: Abi)
    requires
        b@ == a@.push(x),
    ensures
        b.deep_view() == a.deep_view().push(x.deep_view()),
{
    let l = b.deep_view();
    let r = a.deep_view().push(x.deep_view());
    assert forall|k: int| 0 <= k < l.len() implies l[k] == r[k] by {
        assert(l[k] == b@[k].deep_view());
        if k < a@.len() {
            assert(b@[k] == a@[k]);
            assert(r[k] == a@[k].deep_view());
        } else {
            assert(b@[k] == x);
        }
    }
    assert(l =~= r);
}

/// Decodes a sequence of ABI entries in order.
#[verifier::loop_isolation(false)]
pub fn decode_entries_pub(items: &Vec<Json>) -> (r: Result<Vec<Abi>, SchemaError>)
    ensures
        match r {
            Ok(vs) => decode_entries(items.deep_view()) == Ok::<Seq<AbiV>, SchemaErrorV>(
                vs.deep_view(),
            ),
            Err(e) => decode_entries(items.deep_view()) == Err::<Seq<AbiV>, SchemaErrorV>(
                e.deep_view(),
            ),
        },
{
    let ghost dv = items.deep_view();
    let mut out: Vec<Abi> = Vec::new();
    let mut i: usize = 0;
    proof {
        assert(dv.skip(0) =~= dv);
        assert(out.deep_view() =~= Seq::<AbiV>::empty());
    }
    while i < items.len()
        invariant
            i <= items@.len(),
            out.deep_view().len() == i,
            match decode_entries(dv.skip(i as int)) {
                Ok(vs) => decode_entries(dv) == Ok::<Seq<AbiV>, SchemaErrorV>(
                    out.deep_view() + vs,
                ),
                Err(e) => decode_entries(dv) == Err::<Seq<AbiV>, SchemaErrorV>(e),
            },
        decreases items@.len() - i,
    {
        proof {
            assert(dv[i as int] == items@[i as int].deep_view());
            assert(dv.skip(i as int)[0] == dv[i as int]);
            assert(dv.skip(i as int).drop_first() =~= dv.skip(i as int + 1));
        }
        match decode_entry_exec(&items[i]) {
            Ok(v) => {
                let ghost old_out = out;
                let ghost prev = out.deep_view();
                out.push(v);
                proof {
                    lemma_push_abi_view(old_out, out, v);
                    if decode_entries(dv.skip(i as int + 1)) is Ok {
                        let vs2 = decode_entries(dv.skip(i as int + 1))->Ok_0;
                        assert(prev + (seq![v.deep_view()] + vs2) =~= out.deep_view() + vs2);
                    }
                }
            },
            Err(e) => {
                return Err(e);
            },
        }
        i += 1;
    }
    proof {
        assert(dv.skip(items@.len() as int) =~= Seq::<JsonV>::empty());
        assert(out.deep_view() + Seq::<AbiV>::empty() =~= out.deep_view());
    }
    Ok(out)
}

/// Decodes one ABI entry from JSON text.
pub open spec fn entry_from_text(s: Seq<char>) -> Result<AbiV, SchemaErrorV> {
    match crate::json::parse_text(s) {
        None => Err(SchemaErrorV::InvalidJson),
        Some(j) => decode_entry(j),
    }
}

impl Abi {
    /// Decodes a whole ABI JSON array.
    pub fn from_json_array(s: &str) -> (r: Result<Vec<Abi>, SchemaError>)
        ensures
            match r {
                Ok(vs) => abi_from_text(s@) == Ok::<Seq<AbiV>, SchemaErrorV>(vs.deep_view()),
                Err(e) => abi_from_text(s@) == Err::<Seq<AbiV>, SchemaErrorV>(e.deep_view()),
            },
    {
        match crate::json::parse_json_text(s) {
            None => Err(SchemaError::InvalidJson),
            Some(j) => match &j {
                Json::Arr(items) => {
                    proof {
                        crate::json::lemma_arr_view(items);
                    }
                    decode_entries_pub(items)
                },
                _ => Err(SchemaError::UnrecognizedEntry),
            },
        }
    }

    /// Decodes one ABI entry from JSON text.
    pub fn from_str(s: &str) -> (r: Result<Abi, SchemaError>)
        ensures
            match r {
                Ok(v) => entry_from_text(s@) == Ok::<AbiV, SchemaErrorV>(v.deep_view()),
                Err(e) => entry_from_text(s@) == Err::<AbiV, SchemaErrorV>(e.deep_view()),
            },
    {
        match crate::json::parse_json_text(s) {
            None => Err(SchemaError::InvalidJson),
            Some(j) => decode_entry_exec(&j),
        }
    }
}

/// Encodes a parameter list in order.
#[verifier::loop_isolation(false)]
fn encode_vars_exec(vs: &Vec<Variable>) -> (r: Vec<Json>)
    ensures
        r.deep_view() == encode_vars(vars_view(vs@)),
    decreases vs,
{
    let ghost dv = vars_view(vs@);
    proof {
        lemma_vars_view(vs@);
    }
    let mut out: Vec<Json> = Vec::new();
    let mut i: usize = 0;
    proof {
        assert(out.deep_view() =~= Seq::<JsonV>::empty());
        assert(dv.skip(0) =~= dv);
        assert(out.deep_view() + encode_vars(dv.skip(0)) =~= encode_vars(dv));
    }
    while i < vs.len()
        invariant
            i <= vs@.len(),
            dv == vars_view(vs@),
            dv.len() == vs@.len(),
            out.deep_view() + encode_vars(dv.skip(i as int)) == encode_vars(dv),
        decreases vs@.len() - i,
    {
        proof {
            assert(dv[i as int] == vs@[i as int].deep_view());
            assert(dv.skip(i as int)[0] == dv[i as int]);
            assert(dv.skip(i as int).drop_first() =~= dv.skip(i as int + 1));
            assert(encode_vars(dv.skip(i as int)) == seq![encode_var(dv[i as int])]
                + encode_vars(dv.skip(i as int + 1)));
        }
        let ghost old_out = out;
        let ghost prev = out.deep_view();
        let e = encode_var_exec(&vs[i]);
        out.push(e);
        proof {
            crate::json::lemma_push_view(old_out, out, e);
            assert(prev + (seq![encode_var(dv[i as int])] + encode_vars(dv.skip(i as int + 1)))
                =~= out.deep_view() + encode_vars(dv.skip(i as int + 1)));
        }
        i += 1;
    }
    proof {
        assert(encode_vars(dv.skip(vs@.len() as int)) =~= Seq::<JsonV>::empty());
        assert(out.deep_view() + Seq::<JsonV>::empty() =~= out.deep_view());
    }
    out
}

/// Encodes one parameter.
fn encode_var_exec(v: &Variable) -> (r: Json)
    ensures
        r.deep_view() == encode_var(v.deep_view()),
    decreases v,
{
    proof {
        lemma_key_lits();
        lemma_var_view(v);
    }
    let mut ms: Vec<(String, Json)> = Vec::new();
    let ghost snap0 = ms;
    let pair1 = (String::from_str("name"), Json::Str(v.name.clone()));
    let ghost gp1 = pair1;
    ms.push(pair1);
    let ghost snap1 = ms;
    let pair2 = (String::from_str("type"), Json::Str(v.ty.clone()));
    let ghost gp2 = pair2;
    ms.push(pair2);
    let ghost snap2 = ms;
    proof {
        assert(snap0.deep_view() =~= Seq::<(Seq<char>, JsonV)>::empty());
        crate::json::lemma_push_member_view(snap0, snap1, gp1.0, gp1.1);
        crate::json::lemma_push_member_view(snap1, snap2, gp2.0, gp2.1);
    }
    match &v.components {
        None => {
            proof {
                crate::json::lemma_obj_view(&ms);
                assert(ms.deep_view() =~= seq![
                    (key_name(), JsonV::Str(v.name@)),
                    (key_type(), JsonV::Str(v.ty@)),
                ]);
            }
            Json::Obj(ms)
        },
        Some(cs) => {
            let arr = encode_vars_exec(cs);
            let ghost garr = arr;
            let ghost before = ms;
            let pair3 = (String::from_str("components"), Json::Arr(arr));
            let ghost gp3 = pair3;
            ms.push(pair3);
            proof {
                crate::json::lemma_arr_view(&garr);
                crate::json::lemma_push_member_view(before, ms, gp3.0, gp3.1);
                crate::json::lemma_obj_view(&ms);
                assert(ms.deep_view() =~= seq![
                    (key_name(), JsonV::Str(v.name@)),
                    (key_type(), JsonV::Str(v.ty@)),
                ].push((key_components(), JsonV::Arr(encode_vars(vars_view(cs@))))));
            }
            Json::Obj(ms)
        },
    }
}

/// Encodes an event parameter list in order.
#[verifier::loop_isolation(false)]
fn encode_evars_exec(vs: &Vec<EventVariable>) -> (r: Vec<Json>)
    ensures
        r.deep_view() == encode_evars(evars_view(vs@)),
    decreases vs,
{
    let ghost dv = evars_view(vs@);
    proof {
        lemma_evars_view(vs@);
    }
    let mut out: Vec<Json> = Vec::new();
    let mut i: usize = 0;
    proof {
        assert(out.deep_view() =~= Seq::<JsonV>::empty());
        assert(dv.skip(0) =~= dv);
        assert(out.deep_view() + encode_evars(dv.skip(0)) =~= encode_evars(dv));
    }
    while i < vs.len()
        invariant
            i <= vs@.len(),
            dv == evars_view(vs@),
            dv.len() == vs@.len(),
            out.deep_view() + encode_evars(dv.skip(i as int)) == encode_evars(dv),
        decreases vs@.len() - i,
    {
        proof {
            assert(dv[i as int] == vs@[i as int].deep_view());
            assert(dv.skip(i as int)[0] == dv[i as int]);
            assert(dv.skip(i as int).drop_first() =~= dv.skip(i as int + 1));
            assert(encode_evars(dv.skip(i as int)) == seq![encode_evar(dv[i as int])]
                + encode_evars(dv.skip(i as int + 1)));
        }
        let ghost old_out = out;
        let ghost prev = out.deep_view();
        let e = encode_evar_exec(&vs[i]);
        out.push(e);
        proof {
            crate::json::lemma_push_view(old_out, out, e);
            assert(prev + (seq![encode_evar(dv[i as int])] + encode_evars(dv.skip(i as int + 1)))
                =~= out.deep_view() + encode_evars(dv.skip(i as int + 1)));
        }
        i += 1;
    }
    proof {
        assert(encode_evars(dv.skip(vs@.len() as int)) =~= Seq::<JsonV>::empty());
        assert(out.deep_view() + Seq::<JsonV>::empty() =~= out.deep_view());
    }
    out
}

/// Encodes one event parameter.
fn encode_evar_exec(v: &EventVariable) -> (r: Json)
    ensures
        r.deep_view() == encode_evar(v.deep_view()),
    decreases v,
{
    proof {
        lemma_key_lits();
        lemma_evar_view(v);
    }
    let mut ms: Vec<(String, Json)> = Vec::new();
    let ghost snap0 = ms;
    let pair1 = (String::from_str("name"), Json::Str(v.name.clone()));
    let ghost gp1 = pair1;
    ms.push(pair1);
    let ghost snap1 = ms;
    let pair2 = (String::from_str("type"), Json::Str(v.ty.clone()));
    let ghost gp2 = pair2;
    ms.push(pair2);
    let ghost snap2 = ms;
    let pair3 = (String::from_str("indexed"), Json::Bool(v.indexed));
    let ghost gp3 = pair3;
    ms.push(pair3);
    let ghost snap3 = ms;
    proof {
        assert(snap0.deep_view() =~= Seq::<(Seq<char>, JsonV)>::empty());
        crate::json::lemma_push_member_view(snap0, snap1, gp1.0, gp1.1);
        crate::json::lemma_push_member_view(snap1, snap2, gp2.0, gp2.1);
        crate::json::lemma_push_member_view(snap2, snap3, gp3.0, gp3.1);
    }
    match &v.components {
        None => {
            proof {
                crate::json::lemma_obj_view(&ms);
                assert(ms.deep_view() =~= seq![
                    (key_name(), JsonV::Str(v.name@)),
                    (key_type(), JsonV::Str(v.ty@)),
                    (key_indexed(), JsonV::Bool(v.indexed)),
                ]);
            }
            Json::Obj(ms)
        },
        Some(cs) => {
            let arr = encode_evars_exec(cs);
            let ghost garr = arr;
            let ghost before = ms;
            let pair4 = (String::from_str("components"), Json::Arr(arr));
            let ghost gp4 = pair4;
            ms.push(pair4);
            proof {
                crate::json::lemma_arr_view(&garr);
                crate::json::lemma_push_member_view(before, ms, gp4.0, gp4.1);
                crate::json::lemma_obj_view(&ms);
                assert(ms.deep_view() =~= seq![
                    (key_name(), JsonV::Str(v.name@)),
                    (key_type(), JsonV::Str(v.ty@)),
                    (key_indexed(), JsonV::Bool(v.indexed)),
                ].push((key_components(), JsonV::Arr(encode_evars(evars_view(cs@))))));
            }
            Json::Obj(ms)
        },
    }
}

/// Encodes one ABI entry as a JSON object.
pub fn encode_entry_exec(e: &Abi) -> (r: Json)
    ensures
        r.deep_view() == encode_entry(e.deep_view()),
{
    proof {
        lemma_key_lits();
    }
    let mut ms: Vec<(String, Json)> = Vec::new();
    let ghost snap0 = ms;
    proof {
        assert(snap0.deep_view() =~= Seq::<(Seq<char>, JsonV)>::empty());
    }
    match e {
        Abi::Function(f) => {
            let inputs = encode_vars_exec(&f.inputs);
            let outputs = encode_vars_exec(&f.outputs);
            let ghost ginputs = inputs;
            let ghost goutputs = outputs;
            let pair1 = (String::from_str("type"), Json::Str(String::from_str("function")));
            let ghost gp1 = pair1;
            ms.push(pair1);
            let ghost snap1 = ms;
            let pair2 = (String::from_str("name"), Json::Str(f.name.clone()));
            let ghost gp2 = pair2;
            ms.push(pair2);
            let ghost snap2 = ms;
            let pair3 = (String::from_str("inputs"), Json::Arr(inputs));
            let ghost gp3 = pair3;
            ms.push(pair3);
            let ghost snap3 = ms;
            let pair4 = (String::from_str("outputs"), Json::Arr(outputs));
            let ghost gp4 = pair4;
            ms.push(pair4);
            let ghost snap4 = ms;
            let pair5 = (String::from_str("stateMutability"), Json::Str(f.stateMutability.clone()));
            let ghost gp5 = pair5;
            ms.push(pair5);
            let ghost snap5 = ms;
            proof {
                crate::json::lemma_arr_view(&ginputs);
                crate::json::lemma_arr_view(&goutputs);
                crate::json::lemma_push_member_view(snap0, snap1, gp1.0, gp1.1);
                crate::json::lemma_push_member_view(snap1, snap2, gp2.0, gp2.1);
                crate::json::lemma_push_member_view(snap2, snap3, gp3.0, gp3.1);
                crate::json::lemma_push_member_view(snap3, snap4, gp4.0, gp4.1);
                crate::json::lemma_push_member_view(snap4, snap5, gp5.0, gp5.1);
            }
            match f.constant {
                None => {},
                Some(b) => {
                    let ghost before = ms;
                    let pc = (String::from_str("constant"), Json::Bool(b));
                    let ghost gc = pc;
                    ms.push(pc);
                    proof {
                        crate::json::lemma_push_member_view(before, ms, gc.0, gc.1);
                    }
                },
            }
            match f.payable {
                None => {},
                Some(b) => {
                    let ghost before = ms;
                    let pp = (String::from_str("payable"), Json::Bool(b));
                    let ghost gp = pp;
                    ms.push(pp);
                    proof {
                        crate::json::lemma_push_member_view(before, ms, gp.0, gp.1);
                    }
                },
            }
            proof {
                crate::json::lemma_obj_view(&ms);
                lemma_vars_view_eq(&f.inputs);
                lemma_vars_view_eq(&f.outputs);
                assert(ginputs.deep_view() == encode_vars(f.deep_view().inputs));
                assert(goutputs.deep_view() == encode_vars(f.deep_view().outputs));
                assert(ms.deep_view() =~= push_flags(
                    seq![
                        (key_type(), JsonV::Str(tag_function())),
                        (key_name(), JsonV::Str(f.name@)),
                        (key_inputs(), JsonV::Arr(encode_vars(f.deep_view().inputs))),
                        (key_outputs(), JsonV::Arr(encode_vars(f.deep_view().outputs))),
                        (key_mutability(), JsonV::Str(f.stateMutability@)),
                    ],
                    f.constant,
                    f.payable,
                ));
            }
            Json::Obj(ms)
        },
        Abi::Constructor(c) => {
            let inputs = encode_vars_exec(&c.inputs);
            let ghost ginputs = inputs;
            let pair1 = (String::from_str("type"), Json::Str(String::from_str("constructor")));
            let ghost gp1 = pair1;
            ms.push(pair1);
            let ghost snap1 = ms;
            let pair2 = (String::from_str("inputs"), Json::Arr(inputs));
            let ghost gp2 = pair2;
            ms.push(pair2);
            let ghost snap2 = ms;
            let pair3 = (String::from_str("stateMutability"), Json::Str(c.stateMutability.clone()));
            let ghost gp3 = pair3;
            ms.push(pair3);
            let ghost snap3 = ms;
            proof {
                crate::json::lemma_arr_view(&ginputs);
                crate::json::lemma_push_member_view(snap0, snap1, gp1.0, gp1.1);
                crate::json::lemma_push_member_view(snap1, snap2, gp2.0, gp2.1);
                crate::json::lemma_push_member_view(snap2, snap3, gp3.0, gp3.1);
            }
            match c.payable {
                None => {},
                Some(b) => {
                    let ghost before = ms;
                    let pp = (String::from_str("payable"), Json::Bool(b));
                    let ghost gp = pp;
                    ms.push(pp);
                    proof {
                        crate::json::lemma_push_member_view(before, ms, gp.0, gp.1);
                    }
                },
            }
            proof {
                crate::json::lemma_obj_view(&ms);
                lemma_vars_view_eq(&c.inputs);
                assert(ms.deep_view() =~= push_flags(
                    seq![
                        (key_type(), JsonV::Str(tag_constructor())),
                        (key_inputs(), JsonV::Arr(encode_vars(c.deep_view().inputs))),
                        (key_mutability(), JsonV::Str(c.stateMutability@)),
                    ],
                    None,
                    c.payable,
                ));
            }
            Json::Obj(ms)
        },
        Abi::Fallback(fb) => {
            let pair1 = (String::from_str("type"), Json::Str(String::from_str("fallback")));
            let ghost gp1 = pair1;
            ms.push(pair1);
            let ghost snap1 = ms;
            let pair2 = (String::from_str("stateMutability"), Json::Str(fb.stateMutability.clone()));
            let ghost gp2 = pair2;
            ms.push(pair2);
            let ghost snap2 = ms;
            proof {
                crate::json::lemma_push_member_view(snap0, snap1, gp1.0, gp1.1);
                crate::json::lemma_push_member_view(snap1, snap2, gp2.0, gp2.1);
                crate::json::lemma_obj_view(&ms);
                assert(ms.deep_view() =~= seq![
                    (key_type(), JsonV::Str(tag_fallback())),
                    (key_mutability(), JsonV::Str(fb.stateMutability@)),
                ]);
            }
            Json::Obj(ms)
        },
        Abi::Event(ev) => {
            let inputs = encode_evars_exec(&ev.inputs);
            let ghost ginputs = inputs;
            let pair1 = (String::from_str("type"), Json::Str(String::from_str("event")));
            let ghost gp1 = pair1;
            ms.push(pair1);
            let ghost snap1 = ms;
            let pair2 = (String::from_str("name"), Json::Str(ev.name.clone()));
            let ghost gp2 = pair2;
            ms.push(pair2);
            let ghost snap2 = ms;
            let pair3 = (String::from_str("inputs"), Json::Arr(inputs));
            let ghost gp3 = pair3;
            ms.push(pair3);
            let ghost snap3 = ms;
            let pair4 = (String::from_str("anonymous"), Json::Bool(ev.anonymous));
            let ghost gp4 = pair4;
            ms.push(pair4);
            let ghost snap4 = ms;
            proof {
                crate::json::lemma_arr_view(&ginputs);
                crate::json::lemma_push_member_view(snap0, snap1, gp1.0, gp1.1);
                crate::json::lemma_push_member_view(snap1, snap2, gp2.0, gp2.1);
                crate::json::lemma_push_member_view(snap2, snap3, gp3.0, gp3.1);
                crate::json::lemma_push_member_view(snap3, snap4, gp4.0, gp4.1);
                crate::json::lemma_obj_view(&ms);
                lemma_evars_view_eq(&ev.inputs);
                assert(ms.deep_view() =~= seq![
                    (key_type(), JsonV::Str(tag_event())),
                    (key_name(), JsonV::Str(ev.name@)),
                    (key_inputs(), JsonV::Arr(encode_evars(ev.deep_view().inputs))),
                    (key_anonymous(), JsonV::Bool(ev.anonymous)),
                ]);
            }
            Json::Obj(ms)
        },
    }
}

/// Encodes a sequence of ABI entries as a JSON array value.
#[verifier::loop_isolation(false)]
pub fn encode_entries_exec(es: &Vec<Abi>) -> (r: Json)
    ensures
        r.deep_view() == abi_to_jv(es.deep_view()),
{
    let ghost dv = es.deep_view();
    let mut out: Vec<Json> = Vec::new();
    let mut i: usize = 0;
    proof {
        assert(out.deep_view() =~= Seq::<JsonV>::empty());
        assert(dv.skip(0) =~= dv);
        assert(out.deep_view() + encode_entries(dv.skip(0)) =~= encode_entries(dv));
    }
    while i < es.len()
        invariant
            i <= es@.len(),
            dv == es.deep_view(),
            dv.len() == es@.len(),
            out.deep_view() + encode_entries(dv.skip(i as int)) == encode_entries(dv),
        decreases es@.len() - i,
    {
        proof {
            assert(dv[i as int] == es@[i as int].deep_view());
            assert(dv.skip(i as int)[0] == dv[i as int]);
            assert(dv.skip(i as int).drop_first() =~= dv.skip(i as int + 1));
            assert(encode_entries(dv.skip(i as int)) == seq![encode_entry(dv[i as int])]
                + encode_entries(dv.skip(i as int + 1)));
        }
        let ghost old_out = out;
        let ghost prev = out.deep_view();
        let e = encode_entry_exec(&es[i]);
        out.push(e);
        proof {
            crate::json::lemma_push_view(old_out, out, e);
            assert(prev + (seq![encode_entry(dv[i as int])] + encode_entries(
                dv.skip(i as int + 1),
            )) =~= out.deep_view() + encode_entries(dv.skip(i as int + 1)));
        }
        i += 1;
    }
    proof {
        assert(encode_entries(dv.skip(es@.len() as int)) =~= Seq::<JsonV>::empty());
        assert(out.deep_view() + Seq::<JsonV>::empty() =~= out.deep_view());
        crate::json::lemma_arr_view(&out);
    }
    Json::Arr(out)
}

/// The two views of a parameter vector agree.
pub proof fn lemma_vars_view_eq(cs: &Vec<Variable>)
    ensures
        vars_view(cs@) == cs.deep_view(),
{
    lemma_vars_view(cs@);
    let a = vars_view(cs@);
    let b = cs.deep_view();
    assert forall|k: int| 0 <= k < a.len() implies a[k] == b[k] by {
        assert(a[k] == cs@[k].deep_view());
        assert(b[k] == cs@[k].deep_view());
    }
    assert(a =~= b);
}

/// The two views of an event parameter vector agree.
pub proof fn lemma_evars_view_eq(cs: &Vec<EventVariable>)
    ensures
        evars_view(cs@) == cs.deep_view(),
{
    lemma_evars_view(cs@);
    let a = evars_view(cs@);
    let b = cs.deep_view();
    assert forall|k: int| 0 <= k < a.len() implies a[k] == b[k] by {
        assert(a[k] == cs@[k].deep_view());
        assert(b[k] == cs@[k].deep_view());
    }
    assert(a =~= b);
}

/// The JSON array text of an entry sequence, in the compact or the
/// readable layout.
pub fn to_json_array_text(entries: &Vec<Abi>, pretty: bool) -> (r: String)
    ensures
        r@ == crate::json::print_jv(abi_to_jv(entries.deep_view()), pretty, 0),
{
    let j = encode_entries_exec(entries);
    crate::json::json_to_string(&j, pretty)
}

} // verus!

