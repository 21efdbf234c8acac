//! Interception of AMF0 command messages: the commands that name the
//! application and the stream are decoded, rewritten to the configured
//! names, and encoded again.

use amf::amf0::Value;
use amf::error::DecodeError;
use crate::config::{config_writable, Config};
use vstd::prelude::*;
use vstd::utf8::encode_utf8;

verus! {

#[verifier::external_type_specification]
#[verifier::external_body]
pub struct ExAmf0Value(Value);

/// The value of an object property: a string set by the proxy, or the value
/// that was decoded, carried as it is.
pub enum EntryValue {
    Text(String),
    Kept(Value),
}

/// One property of an AMF0 object.
pub struct AmfEntry {
    pub key: String,
    pub value: EntryValue,
}

/// An AMF0 value as the interception reads it: strings and objects are open,
/// numbers and every other kind are carried as decoded.
pub enum AmfValue {
    Str(String),
    Number(Value),
    Object { class_name: Option<String>, entries: Vec<AmfEntry> },
    Other(Value),
}

/// The model of an `EntryValue`.
pub enum EntryView {
    Text(Seq<char>),
    Kept(Value),
}

/// The model of an `AmfEntry`.
pub struct EntryModel {
    pub key: Seq<char>,
    pub value: EntryView,
}

/// The mathematical model of an `AmfValue`.
pub enum AmfModel {
    Str(Seq<char>),
    Number(Value),
    Object { class_name: Option<Seq<char>>, entries: Seq<EntryModel> },
    Other(Value),
}

impl View for EntryValue {
    type V = EntryView;

    open spec fn view(&self) -> EntryView {
        match self {
            EntryValue::Text(s) => EntryView::Text(s@),
            EntryValue::Kept(v) => EntryView::Kept(*v),
        }
    }
}

impl View for AmfEntry {
    type V = EntryModel;

    open spec fn view(&self) -> EntryModel {
        EntryModel { key: self.key@, value: self.value@ }
    }
}

/// The model of an object's class name.
pub open spec fn class_name_model(c: Option<String>) -> Option<Seq<char>> {
    match c {
        Some(s) => Some(s@),
        None => None,
    }
}

impl View for AmfValue {
    type V = AmfModel;

    open spec fn view(&self) -> AmfModel {
        match self {
            AmfValue::Str(s) => AmfModel::Str(s@),
            AmfValue::Number(v) => AmfModel::Number(*v),
            AmfValue::Object { class_name, entries } => AmfModel::Object {
                class_name: class_name_model(*class_name),
                entries: entries@.map_values(|e: AmfEntry| e@),
            },
            AmfValue::Other(v) => AmfModel::Other(*v),
        }
    }
}

/// One step of decoding a sequence of AMF0 values.
pub enum Amf0Read {
    /// A value, and how many bytes it took.
    Value { value: AmfValue, used: usize },
    /// The input ended: there is no further value.
    End,
    /// The bytes are no AMF0 value.
    Malformed,
}

/// The model of an `Amf0Read`.
pub enum Amf0Step {
    Value { value: AmfModel, used: nat },
    End,
    Malformed,
}

impl View for Amf0Read {
    type V = Amf0Step;

    open spec fn view(&self) -> Amf0Step {
        match self {
            Amf0Read::Value { value, used } => Amf0Step::Value { value: value@, used: *used as nat },
            Amf0Read::End => Amf0Step::End,
            Amf0Read::Malformed => Amf0Step::Malformed,
        }
    }
}

/// Whether the AMF0 encoder writes a value that the decoder produced
/// without failing.
pub uninterp spec fn amf0_writable(v: Value) -> bool;

/// Whether a string fits an AMF0 string with a 16-bit byte length.
pub open spec fn fits_short_string(s: Seq<char>) -> bool {
    encode_utf8(s).len() <= 0xFFFF
}

/// Whether a string fits an AMF0 string with a 32-bit byte length.
pub open spec fn fits_long_string(s: Seq<char>) -> bool {
    encode_utf8(s).len() <= 0xFFFF_FFFF
}

/// Whether the encoder writes an object property: its key fits a 16-bit
/// length, and its value is a string that fits or a decoded value.
pub open spec fn entry_writable(e: EntryModel) -> bool {
    &&& fits_short_string(e.key)
    &&& match e.value {
        EntryView::Text(s) => fits_long_string(s),
        EntryView::Kept(v) => amf0_writable(v),
    }
}

/// Whether the encoder writes a value: strings within the lengths that
/// AMF0 can declare, decoded values as they were decoded.
pub open spec fn value_writable(m: AmfModel) -> bool {
    match m {
        AmfModel::Str(s) => fits_long_string(s),
        AmfModel::Number(v) => amf0_writable(v),
        AmfModel::Other(v) => amf0_writable(v),
        AmfModel::Object { class_name, entries } => {
            &&& class_name matches Some(c) ==> fits_short_string(c)
            &&& forall|i: int| 0 <= i < entries.len() ==> #[trigger] entry_writable(entries[i])
        },
    }
}

/// What the AMF0 decoder reads from the front of `bytes`.
pub uninterp spec fn amf0_decoded(bytes: Seq<u8>) -> Amf0Step;

/// The bytes that the AMF0 encoder writes for a value.
pub uninterp spec fn amf0_encoded(v: AmfModel) -> Seq<u8>;

/// Relies on `amf::amf0::Decoder::decode`: the value at the front of the
/// bytes; an I/O error (the bytes end, also inside a value) ends the
/// sequence, any other error is a malformed value. A value takes at least
/// its marker byte, and no more bytes than there are. What is decoded can be
/// encoded again: keys and class names are read with 16-bit lengths,
/// strings with 16- or 32-bit ones.
#[verifier::external_body]
fn amf0_read(bytes: &[u8], start: usize) -> (r: Amf0Read)
    requires
        start <= bytes@.len(),
    ensures
        r@ == amf0_decoded(bytes@.subrange(start as int, bytes@.len() as int)),
        r matches Amf0Read::Value { used, .. } ==> 0 < used <= bytes@.len() - start,
        r matches Amf0Read::Value { value: AmfValue::Number(v), .. } ==> amf0_writable(v),
        r matches Amf0Read::Value { value: AmfValue::Other(v), .. } ==> amf0_writable(v),
        r matches Amf0Read::Value { value, .. } ==> value_writable(value@),
{
    let mut cursor = std::io::Cursor::new(&bytes[start..]);
    let decoded = amf::amf0::Decoder::new(&mut cursor).decode();
    let used = cursor.position() as usize;
    let value = match decoded {
        Ok(Value::String(s)) => AmfValue::Str(s),
        Ok(v @ Value::Number(_)) => AmfValue::Number(v),
        Ok(Value::Object { class_name, entries }) => AmfValue::Object { class_name, entries:
            entries.into_iter().map(|p| AmfEntry { key: p.key, value: EntryValue::Kept(p.value) }).collect() },
        Ok(v) => AmfValue::Other(v),
        Err(DecodeError::Io(_)) => return Amf0Read::End,
        Err(_) => return Amf0Read::Malformed,
    };
    Amf0Read::Value { value, used }
}

/// Relies on `amf::amf0::Value::write_to`: appends the AMF0 bytes of the
/// value; writing to a `Vec` does not fail, and the encoder's length
/// assertions hold of a writable value.
#[verifier::external_body]
fn amf0_write(v: AmfValue, out: &mut Vec<u8>)
    requires
        value_writable(v@),
    ensures
        final(out)@ == old(out)@ + amf0_encoded(v@),
{
    let value = match v {
        AmfValue::Str(s) => Value::String(s),
        AmfValue::Object { class_name, entries } => Value::Object { class_name, entries: entries
            .into_iter().map(|e| amf::Pair { key: e.key, value: match e.value {
                EntryValue::Text(s) => Value::String(s),
                EntryValue::Kept(x) => x,
            } }).collect() },
        AmfValue::Number(x) | AmfValue::Other(x) => x,
    };
    let _ = value.write_to(&mut *out);
}


/// Why a command message cannot be intercepted.
#[derive(Clone, Copy, Debug, PartialEq, Eq)]
pub enum CommandError {
    /// The payload holds no AMF0 value where one is needed, or a malformed one.
    Malformed,
    /// The first value is not a string.
    NameNotString,
    /// The second value is not a number.
    TransactionIdNotNumber,
    /// The first argument of `connect` is not an object.
    ConnectArgNotObject,
    /// A command that is rewritten has no first argument.
    MissingArgument,
}

/// The values that decoding reads one after another until no byte is left,
/// or `None` where one of them is malformed or cut off.
pub open spec fn amf0_sequence(b: Seq<u8>) -> Option<Seq<AmfModel>>
    decreases b.len(),
{
    if b.len() == 0 {
        Some(Seq::empty())
    } else {
        match amf0_decoded(b) {
        Amf0Step::Value { value, used } => if 0 < used <= b.len() {
            match amf0_sequence(b.subrange(used as int, b.len() as int)) {
                Some(rest) => Some(seq![value] + rest),
                None => None,
            }
        } else {
            None
        },
        Amf0Step::End => None,
        Amf0Step::Malformed => None,
        }
    }
}

/// The values encoded one after another.
pub open spec fn encoded_sequence(vs: Seq<AmfModel>) -> Seq<u8>
    decreases vs.len(),
{
    if vs.len() == 0 {
        Seq::empty()
    } else {
        encoded_sequence(vs.drop_last()) + amf0_encoded(vs.last())
    }
}

/// A property of the `connect` object after rewriting: `app` names the
/// configured application, `swfUrl` and `tcUrl` the configured play URL.
pub open spec fn rewritten_entry(e: EntryModel, cfg: Config) -> EntryModel {
    if e.key == "app"@ {
        EntryModel { key: e.key, value: EntryView::Text(cfg.app_name@) }
    } else if e.key == "swfUrl"@ || e.key == "tcUrl"@ {
        EntryModel { key: e.key, value: EntryView::Text(cfg.play_url@) }
    } else {
        e
    }
}

/// The commands whose first argument is rewritten.
pub open spec fn is_rewritten_command(name: Seq<char>) -> bool {
    name == "connect"@ || name == "releaseStream"@ || name == "FCPublish"@ || name == "publish"@
}

/// The arguments of a rewritten command after rewriting.
pub open spec fn rewritten_args(name: Seq<char>, args: Seq<AmfModel>, cfg: Config) -> Result<
    Seq<AmfModel>,
    CommandError,
> {
    if args.len() == 0 {
        Err(CommandError::MissingArgument)
    } else if name == "connect"@ {
        match args[0] {
            AmfModel::Object { class_name, entries } => Ok(
                args.update(
                    0,
                    AmfModel::Object {
                        class_name,
                        entries: entries.map_values(|e: EntryModel| rewritten_entry(e, cfg)),
                    },
                ),
            ),
            _ => Err(CommandError::ConnectArgNotObject),
        }
    } else {
        Ok(args.update(0, AmfModel::Str(cfg.stream_name@)))
    }
}

/// The command with its arguments: the new payload, or the original one
/// where the command is not rewritten.
pub open spec fn rebuilt_payload(
    payload: Seq<u8>,
    name: Seq<char>,
    trans_id: Value,
    args: Seq<AmfModel>,
    cfg: Config,
) -> Result<Seq<u8>, CommandError> {
    if !is_rewritten_command(name) {
        Ok(payload)
    } else {
        match rewritten_args(name, args, cfg) {
            Ok(new_args) => Ok(
                encoded_sequence(seq![AmfModel::Str(name), AmfModel::Number(trans_id)] + new_args),
            ),
            Err(e) => Err(e),
        }
    }
}

/// Interception of one command message: the payload that is forwarded, and
/// whether the command was `publish`, which ends the interception.
pub open spec fn intercepted(payload: Seq<u8>, cfg: Config) -> Result<(Seq<u8>, bool), CommandError> {
    match amf0_decoded(payload) {
        Amf0Step::Value { value: AmfModel::Str(name), used: u1 } => {
            let b1 = payload.subrange(u1 as int, payload.len() as int);
            match amf0_decoded(b1) {
                Amf0Step::Value { value: AmfModel::Number(trans_id), used: u2 } => {
                    match amf0_sequence(b1.subrange(u2 as int, b1.len() as int)) {
                        Some(args) => match rebuilt_payload(payload, name, trans_id, args, cfg) {
                            Ok(out) => Ok((out, name == "publish"@)),
                            Err(e) => Err(e),
                        },
                        None => Err(CommandError::Malformed),
                    }
                },
                Amf0Step::Value { .. } => Err(CommandError::TransactionIdNotNumber),
                _ => Err(CommandError::Malformed),
            }
        },
        Amf0Step::Value { .. } => Err(CommandError::NameNotString),
        _ => Err(CommandError::Malformed),
    }
}

/// The models of a sequence of values.
pub open spec fn models(vs: Seq<AmfValue>) -> Seq<AmfModel> {
    vs.map_values(|v: AmfValue| v@)
}

fn is_name(s: &String, lit: &str) -> (r: bool)
    ensures
        r == (s@ == lit@),
{
    *s == lit.to_owned()
}

/// Decodes the values from `start` on until the input ends.
fn decode_args(payload: &[u8], start: usize) -> (r: Result<Vec<AmfValue>, CommandError>)
    requires
        start <= payload@.len(),
    ensures
        match amf0_sequence(payload@.subrange(start as int, payload@.len() as int)) {
            Some(vs) => r matches Ok(args) && models(args@) == vs,
            None => r == Err::<Vec<AmfValue>, CommandError>(CommandError::Malformed),
        },
        r matches Ok(args) ==> forall|i: int|
            0 <= i < args@.len() ==> #[trigger] value_writable(models(args@)[i]),
{
    let len = payload.len();
    let mut args: Vec<AmfValue> = Vec::new();
    let mut pos = start;
    loop
        invariant
            start <= pos <= len,
            len == payload@.len(),
            amf0_sequence(payload@.subrange(start as int, len as int)) == match amf0_sequence(
                payload@.subrange(pos as int, len as int),
            ) {
                Some(rest) => Some(models(args@) + rest),
                None => None::<Seq<AmfModel>>,
            },
            forall|i: int| 0 <= i < args@.len() ==> #[trigger] value_writable(models(args@)[i]),
        decreases len - pos,
    {
        let ghost b = payload@.subrange(pos as int, len as int);
        if pos == len {
            assert(models(args@) + Seq::<AmfModel>::empty() =~= models(args@));
            return Ok(args);
        }
        match amf0_read(payload, pos) {
            Amf0Read::Value { value, used } => {
                proof {
                    assert(b.subrange(used as int, b.len() as int) =~= payload@.subrange(
                        pos + used,
                        len as int,
                    ));
                    assert(models(args@.push(value)) =~= models(args@) + seq![value@]);
                    assert(models(args@) + (seq![value@] + amf0_sequence(
                        payload@.subrange(pos + used, len as int),
                    )->0) =~= models(args@.push(value)) + amf0_sequence(
                        payload@.subrange(pos + used, len as int),
                    )->0);
                }
                args.push(value);
                pos = pos + used;
            },
            Amf0Read::End => {
                return Err(CommandError::Malformed);
            },
            Amf0Read::Malformed => {
                return Err(CommandError::Malformed);
            },
        }
    }
}

/// Rewrites the properties `app`, `swfUrl` and `tcUrl` of a `connect`
/// object, leaving every other property as it is.
fn rewrite_entries(entries: &mut Vec<AmfEntry>, config: &Config)
    ensures
        final(entries)@.map_values(|e: AmfEntry| e@) == old(entries)@.map_values(
            |e: AmfEntry| e@,
        ).map_values(|e: EntryModel| rewritten_entry(e, *config)),
{
    let ghost before = entries@.map_values(|e: AmfEntry| e@);
    let mut i: usize = 0;
    while i < entries.len()
        invariant
            i <= entries@.len(),
            entries@.len() == before.len(),
            forall|j: int|
                0 <= j < i ==> #[trigger] entries@[j]@ == rewritten_entry(before[j], *config),
            forall|j: int| i <= j < entries@.len() ==> #[trigger] entries@[j]@ == before[j],
        decreases entries@.len() - i,
    {
        assert(before[i as int] == entries@[i as int]@);
        let is_app = is_name(&entries[i].key, "app");
        let is_url = is_name(&entries[i].key, "swfUrl") || is_name(&entries[i].key, "tcUrl");
        if is_app || is_url {
            let key = entries[i].key.clone();
            let text = if is_app {
                config.app_name.clone()
            } else {
                config.play_url.clone()
            };
            entries.set(i, AmfEntry { key, value: EntryValue::Text(text) });
        }
        i = i + 1;
    }
    assert(entries@.map_values(|e: AmfEntry| e@) =~= before.map_values(
        |e: EntryModel| rewritten_entry(e, *config),
    ));
}

/// Encodes the values one after another.
fn encode_values(values: Vec<AmfValue>, out: &mut Vec<u8>)
    requires
        forall|i: int| 0 <= i < values@.len() ==> #[trigger] value_writable(models(values@)[i]),
    ensures
        final(out)@ == old(out)@ + encoded_sequence(models(values@)),
{
    let ghost all = models(values@);
    let ghost start = out@;
    let n = values.len();
    let mut rest = values;
    let mut k: usize = 0;
    while rest.len() > 0
        invariant
            k + rest@.len() == all.len(),
            all.len() == n,
            forall|i: int| 0 <= i < all.len() ==> #[trigger] value_writable(all[i]),
            models(rest@) == all.subrange(k as int, all.len() as int),
            out@ == start + encoded_sequence(all.subrange(0, k as int)),
        decreases rest@.len(),
    {
        let ghost old_rest = rest@;
        let v = rest.remove(0);
        proof {
            assert(rest@ =~= old_rest.subrange(1, old_rest.len() as int));
            assert(models(old_rest)[0] == old_rest[0]@);
            assert(models(rest@) =~= models(old_rest).subrange(1, old_rest.len() as int));
            assert(models(rest@) =~= all.subrange(k + 1, all.len() as int));
            assert(all.subrange(0, k + 1).drop_last() =~= all.subrange(0, k as int));
            assert(v@ == all[k as int]);
        }
        amf0_write(v, out);
        k = k + 1;
        assert(out@ =~= start + encoded_sequence(all.subrange(0, k as int)));
    }
    assert(all.subrange(0, k as int) =~= all);
}

/// Intercepts one AMF0 command message. `connect` gets the configured
/// application name and play URL; `releaseStream`, `FCPublish` and
/// `publish` get the configured stream name as their first argument, and
/// are encoded again with their original transaction id. Any other command
/// leaves the payload as it is. Returns whether the command was `publish`.
pub fn hijack_command_message(payload: &mut Vec<u8>, config: &Config) -> (r: Result<
    bool,
    CommandError,
>)
    requires
        config_writable(*config),
    ensures
        match intercepted(old(payload)@, *config) {
            Ok((bytes, done)) => r == Ok::<bool, CommandError>(done) && final(payload)@ == bytes,
            Err(e) => r == Err::<bool, CommandError>(e) && final(payload)@ == old(payload)@,
        },
{
    let len = payload.len();
    assert(payload@.subrange(0, len as int) =~= payload@);
    let (name, u1) = match amf0_read(payload.as_slice(), 0) {
        Amf0Read::Value { value: AmfValue::Str(s), used } => (s, used),
        Amf0Read::Value { .. } => return Err(CommandError::NameNotString),
        _ => return Err(CommandError::Malformed),
    };
    let ghost b1 = payload@.subrange(u1 as int, len as int);
    let (trans_id, u2) = match amf0_read(payload.as_slice(), u1) {
        Amf0Read::Value { value: AmfValue::Number(t), used } => (t, used),
        Amf0Read::Value { .. } => return Err(CommandError::TransactionIdNotNumber),
        _ => return Err(CommandError::Malformed),
    };
    assert(b1.subrange(u2 as int, b1.len() as int) =~= payload@.subrange(
        (u1 + u2) as int,
        len as int,
    ));
    let mut args = match decode_args(payload.as_slice(), u1 + u2) {
        Ok(a) => a,
        Err(e) => return Err(e),
    };
    let is_connect = is_name(&name, "connect");
    let is_publish = is_name(&name, "publish");
    if !(is_connect || is_publish || is_name(&name, "releaseStream") || is_name(
        &name,
        "FCPublish",
    )) {
        return Ok(false);
    }
    if args.len() == 0 {
        return Err(CommandError::MissingArgument);
    }
    let ghost old_args = models(args@);
    assert(value_writable(old_args[0]));
    if is_connect {
        let first = args.remove(0);
        assert(first@ == old_args[0]);
        match first {
            AmfValue::Object { class_name, mut entries } => {
                let ghost cn = class_name;
                let ghost old_entries = entries@.map_values(|e: AmfEntry| e@);
                assert(old_args[0] == AmfModel::Object {
                    class_name: class_name_model(cn),
                    entries: old_entries,
                });
                rewrite_entries(&mut entries, config);
                let value = AmfValue::Object { class_name, entries };
                assert(value@ == AmfModel::Object {
                    class_name: class_name_model(cn),
                    entries: old_entries.map_values(|e: EntryModel| rewritten_entry(e, *config)),
                });
                let ghost new_entries = old_entries.map_values(
                    |e: EntryModel| rewritten_entry(e, *config),
                );
                assert forall|i: int| 0 <= i < new_entries.len() implies #[trigger] entry_writable(
                    new_entries[i],
                ) by {
                    assert(entry_writable(old_entries[i]));
                }
                assert(value_writable(value@));
                args.insert(0, value);
                assert(models(args@) =~= old_args.update(0, value@));
            },
            _ => return Err(CommandError::ConnectArgNotObject),
        }
    } else {
        args.set(0, AmfValue::Str(config.stream_name.clone()));
        assert(models(args@) =~= old_args.update(0, AmfModel::Str(config.stream_name@)));
    }
    assert(Ok::<Seq<AmfModel>, CommandError>(models(args@)) == rewritten_args(name@, old_args, *config));
    let mut out: Vec<u8> = Vec::new();
    let ghost new_args = models(args@);
    let mut all: Vec<AmfValue> = Vec::new();
    all.push(AmfValue::Str(name));
    all.push(AmfValue::Number(trans_id));
    all.append(&mut args);
    assert(models(all@) =~= seq![AmfModel::Str(name@), AmfModel::Number(trans_id)] + new_args);
    assert forall|i: int| 0 <= i < all@.len() implies #[trigger] value_writable(models(all@)[i]) by {
        if i >= 2 {
            assert(models(all@)[i] == new_args[i - 2]);
            if i > 2 {
                assert(new_args[i - 2] == old_args[i - 2]);
                assert(value_writable(old_args[i - 2]));
            }
        }
    }
    encode_values(all, &mut out);
    *payload = out;
    Ok(is_publish)
}

} // verus!
