//! Input on its way to an actor.
//!
//! The platform hit-tests and decides where focus is; what an actor receives is
//! a message like any other, written as something one could have sent by hand.

use core::fmt::Display;

use vstd::prelude::*;
use vstd::string::{to_string_from_display_ensures, StringExecFns};

use crate::encode::{fields_bytes, float_at, message_bytes, variant_named};
use crate::hir::{Hir, SumDef, SumId, Ty};
use crate::scene::HitId;
use crate::text::{decimal, push_number, same_text};
use crate::words::{
    a_number_survives_being_written, a_word_in_front_is_one_more_word, int_in, lemma_numeral,
    one_word, two_words_are_two_words, white, words_in,
};

verus! {

/// A key that was pressed.
#[derive(Debug, Clone, Copy, PartialEq, Eq, Structural)]
pub enum Key {
    Char(char),
    Backspace,
    Enter,
    Escape,
}

/// Something that happened to a node.
#[derive(Debug, Clone, Copy, PartialEq)]
pub enum InputEvent<T> {
    PointerDown { id: HitId, x: T, y: T },
    PointerUp { id: HitId, x: T, y: T },
    PointerEnter { id: HitId },
    PointerLeave { id: HitId },
    Key { id: HitId, key: Key },
    /// Keyboard focus moved here, or nowhere.
    FocusChanged { id: Option<HitId> },
    /// The content of a scroll was moved to this offset.
    Scroll { id: HitId, offset: T },
}

/// Whether `text` is the message spec of an event: a variant of the platform's
/// input type and its arguments. `None` is right for an event no actor can ask
/// for.
pub open spec fn spells<T: Display>(event: InputEvent<T>, text: Option<Seq<char>>) -> bool {
    match event {
        InputEvent::PointerDown { id, .. } => text == Some("Click "@ + decimal(id.0 as int)),
        InputEvent::Key { key: Key::Char(character), .. } => text == Some(
            "Typed "@ + decimal(character as int),
        ),
        InputEvent::Key { key: Key::Backspace, .. } => text == Some("Backspace"@),
        InputEvent::Key { key: Key::Enter, .. } => text == Some("Enter"@),
        InputEvent::Key { key: Key::Escape, .. } => text == Some("Escape"@),
        InputEvent::FocusChanged { id: Some(id) } => text == Some("Focus "@ + decimal(id.0 as int)),
        InputEvent::FocusChanged { id: None } => text == Some("Focus "@ + decimal(0)),
        InputEvent::Scroll { id, offset } => exists|shown: String|
            #[trigger] to_string_from_display_ensures::<T>(&offset, shown) && text == Some(
                "Scrolled "@ + decimal(id.0 as int) + " "@ + shown@,
            ),
        _ => text is None,
    }
}

/// Renders one input event as the message spec an encoder reads.
///
/// Going through the same encoder a command line uses means the wire format
/// has one implementation rather than two that must agree.
pub fn spec_for<T: Display>(event: InputEvent<T>) -> (r: Option<String>)
    ensures
        spells(
            event,
            match r {
                Some(text) => Some(text@),
                None => None,
            },
        ),
{
    match event {
        InputEvent::PointerDown { id, .. } => {
            let mut out = "Click ".to_owned();
            push_number(&mut out, id.0 as u64);
            Some(out)
        },
        InputEvent::Key { key, .. } => match key {
            // The scalar value, because a message may carry no pointer and a
            // string is one.
            Key::Char(character) => {
                let mut out = "Typed ".to_owned();
                push_number(&mut out, character as u32 as u64);
                Some(out)
            },
            Key::Backspace => Some("Backspace".to_owned()),
            Key::Enter => Some("Enter".to_owned()),
            Key::Escape => Some("Escape".to_owned()),
        },
        // Nothing focused is id 0, the same way a node with no id is 0.
        InputEvent::FocusChanged { id } => {
            let mut out = "Focus ".to_owned();
            let raw: u32 = match id {
                Some(id) => id.0,
                None => 0,
            };
            push_number(&mut out, raw as u64);
            Some(out)
        },
        InputEvent::Scroll { id, offset } => {
            let mut out = "Scrolled ".to_owned();
            push_number(&mut out, id.0 as u64);
            out.append(" ");
            let shown = offset.to_string();
            out.append(shown.as_str());
            Some(out)
        },
        // Pointer release and hover are not variants of the input type: an
        // actor cannot ask for them, so there is nothing to deliver them to.
        InputEvent::PointerUp { .. }
        | InputEvent::PointerEnter { .. }
        | InputEvent::PointerLeave { .. } => None,
    }
}

/// Whether a type is the platform's own event type.
pub open spec fn input_type(hir: Hir, ty: Ty) -> bool {
    ty matches Ty::Sum(id) && hir.sums@[id.0 as int].name@ == "Input"@
}

/// Whether a port carries the platform's own event type.
pub fn is_input(hir: &Hir, ty: &Ty) -> (r: bool)
    requires
        ty.known(*hir),
    ensures
        r == input_type(*hir, *ty),
{
    match ty {
        Ty::Sum(id) => same_text(hir.sums[id.0 as usize].name.as_str(), "Input"),
        _ => false,
    }
}

/// Why an actor cannot be told about input.
#[derive(Debug)]
pub enum DeafActor {
    /// The module declares no actor.
    NoActor,
    /// The actor receives something that is not a sum.
    NotASum { actor: String, message: Ty },
    /// The actor receives a sum, but not the platform's input type.
    OtherSum { actor: String, message: String },
}

impl DeafActor {
    /// The reason in words, where `ty` is how the compiler writes the type the
    /// actor receives.
    pub open spec fn words(self, ty: Seq<char>) -> Seq<char> {
        match self {
            DeafActor::NoActor => "this module declares no actor"@,
            DeafActor::NotASum { actor, .. } => "`"@ + actor@ + "` receives "@ + ty
                + ", so it cannot be told about clicks \u{2014} write `message: Input` to receive input (\u{a7}6.1)"@,
            DeafActor::OtherSum { actor, message } => "`"@ + actor@ + "` receives `"@ + message@
                + "`, which is not the platform's input type \u{2014} write `message: Input` to receive input (\u{a7}6.1)"@,
        }
    }

    /// The reason in words, where `ty` is how the compiler writes the type the
    /// actor receives.
    pub fn message(&self, ty: &str) -> (r: String)
        ensures
            r@ == self.words(ty@),
    {
        match self {
            DeafActor::NoActor => "this module declares no actor".to_owned(),
            DeafActor::NotASum { actor, .. } => {
                let mut out = "`".to_owned();
                out.append(actor.as_str());
                out.append("` receives ");
                out.append(ty);
                out.append(
                    ", so it cannot be told about clicks \u{2014} write `message: Input` to receive input (\u{a7}6.1)",
                );
                out
            },
            DeafActor::OtherSum { actor, message } => {
                let mut out = "`".to_owned();
                out.append(actor.as_str());
                out.append("` receives `");
                out.append(message.as_str());
                out.append(
                    "`, which is not the platform's input type \u{2014} write `message: Input` to receive input (\u{a7}6.1)",
                );
                out
            },
        }
    }
}

/// Checks that this module can actually receive input before a window opens.
///
/// The failure it exists for is an actor that draws itself but declares some
/// other message type: it would run, paint once, and then ignore every click
/// in silence. Better to refuse at the door and say why.
pub fn check_receives_input(hir: &Hir) -> (r: Result<(), DeafActor>)
    requires
        hir.valid(),
    ensures
        match r {
            Ok(_) => hir.actors@.len() == 1 && input_type(*hir, hir.actors@[0].message),
            Err(DeafActor::NoActor) => hir.actors@.len() != 1,
            Err(DeafActor::NotASum { actor, message }) => {
                &&& hir.actors@.len() == 1
                &&& hir.actors@[0].message !is Sum
                &&& actor@ == hir.actors@[0].name@
                &&& message == hir.actors@[0].message
            },
            Err(DeafActor::OtherSum { actor, message }) => {
                &&& hir.actors@.len() == 1
                &&& !input_type(*hir, hir.actors@[0].message)
                &&& actor@ == hir.actors@[0].name@
                &&& hir.actors@[0].message matches Ty::Sum(id) && message@
                    == hir.sums@[id.0 as int].name@
            },
        },
{
    match hir.lone_actor() {
        None => Err(DeafActor::NoActor),
        Some(actor) => {
            assert(hir.actors@[0].known(*hir));
            match &actor.message {
                Ty::Sum(id) => {
                    if is_input(hir, &actor.message) {
                        Ok(())
                    } else {
                        Err(
                            DeafActor::OtherSum {
                                actor: actor.name.clone(),
                                message: hir.sums[id.0 as usize].name.clone(),
                            },
                        )
                    }
                },
                other => Err(
                    DeafActor::NotASum { actor: actor.name.clone(), message: other.copied() },
                ),
            }
        },
    }
}

/// A click arrives as a click: its message is two words, the variant and a
/// number that reads back as the id of the node that was clicked. So does a
/// change of focus.
pub proof fn an_event_reads_back_as_its_id(id: u32)
    ensures
        words_in("Click "@ + decimal(id as int)) == seq!["Click"@, decimal(id as int)],
        words_in("Focus "@ + decimal(id as int)) == seq!["Focus"@, decimal(id as int)],
        int_in(decimal(id as int)) == Some(id as i64),
{
    reveal_strlit("Click ");
    reveal_strlit("Click");
    reveal_strlit("Focus ");
    reveal_strlit("Focus");
    lemma_numeral(id as nat);
    a_number_survives_being_written(id as i64);
    let number = decimal(id as int);
    assert("Click "@ =~= "Click"@ + seq![' ']);
    two_words_are_two_words("Click"@, number);
    assert("Focus "@ =~= "Focus"@ + seq![' ']);
    two_words_are_two_words("Focus"@, number);
}

/// A typed character arrives as its scalar value.
pub proof fn a_typed_character_reads_back(c: char)
    ensures
        words_in("Typed "@ + decimal(c as int)) == seq!["Typed"@, decimal(c as int)],
        int_in(decimal(c as int)) == Some(c as i64),
{
    reveal_strlit("Typed ");
    reveal_strlit("Typed");
    lemma_numeral(c as nat);
    a_number_survives_being_written(c as i64);
    assert("Typed "@ =~= "Typed"@ + seq![' ']);
    two_words_are_two_words("Typed"@, decimal(c as int));
}

/// A scroll arrives as where its content was moved to: the words of its message
/// are the variant, the id of the scroll, and those of the offset as it is
/// shown.
pub proof fn a_scroll_reads_back(id: u32, shown: Seq<char>)
    ensures
        words_in("Scrolled "@ + decimal(id as int) + " "@ + shown) == seq![
            "Scrolled"@,
            decimal(id as int),
        ] + words_in(shown),
        int_in(decimal(id as int)) == Some(id as i64),
{
    reveal_strlit("Scrolled ");
    reveal_strlit("Scrolled");
    reveal_strlit(" ");
    lemma_numeral(id as nat);
    a_number_survives_being_written(id as i64);
    let number = decimal(id as int);
    assert("Scrolled "@ =~= "Scrolled"@ + seq![' ']);
    assert(one_word("Scrolled"@)) by {
        assert forall|i: int| 0 <= i < "Scrolled"@.len() implies !white(
            #[trigger] "Scrolled"@[i],
        ) by {}
    }
    let rest = number + seq![' '] + shown;
    assert("Scrolled "@ + number + " "@ + shown =~= "Scrolled"@ + seq![' '] + rest);
    a_word_in_front_is_one_more_word(number, shown);
    a_word_in_front_is_one_more_word("Scrolled"@, rest);
    assert(seq!["Scrolled"@] + (seq![number] + words_in(shown)) =~= seq!["Scrolled"@, number]
        + words_in(shown));
}

/// A key that is no character arrives as its name alone.
pub proof fn a_bare_key_is_one_word()
    ensures
        words_in("Backspace"@) == seq!["Backspace"@],
        words_in("Enter"@) == seq!["Enter"@],
        words_in("Escape"@) == seq!["Escape"@],
{
    reveal_strlit("Backspace");
    reveal_strlit("Enter");
    reveal_strlit("Escape");
    two_words_are_two_words("Backspace"@, "Backspace"@);
    two_words_are_two_words("Enter"@, "Enter"@);
    two_words_are_two_words("Escape"@, "Escape"@);
}

/// What each variant of the platform's input type carries.
pub open spec fn input_fields(name: Seq<char>) -> Option<Seq<Ty>> {
    if name == "Click"@ || name == "Typed"@ || name == "Focus"@ {
        Some(seq![Ty::Int])
    } else if name == "Backspace"@ || name == "Enter"@ || name == "Escape"@ {
        Some(Seq::empty())
    } else if name == "Scrolled"@ {
        Some(seq![Ty::Int, Ty::Float])
    } else {
        None
    }
}

/// The variant of the platform's input type an event is delivered as.
pub open spec fn variant_of<T>(event: InputEvent<T>) -> Seq<char> {
    match event {
        InputEvent::PointerDown { .. } => "Click"@,
        InputEvent::Key { key: Key::Char(_), .. } => "Typed"@,
        InputEvent::Key { key: Key::Backspace, .. } => "Backspace"@,
        InputEvent::Key { key: Key::Enter, .. } => "Enter"@,
        InputEvent::Key { key: Key::Escape, .. } => "Escape"@,
        InputEvent::FocusChanged { .. } => "Focus"@,
        InputEvent::Scroll { .. } => "Scrolled"@,
        _ => Seq::empty(),
    }
}

/// The number an event is delivered with, if it is with one: the node that was
/// clicked or scrolled, the one that has focus or zero for none, or the
/// character that was typed.
pub open spec fn number_of<T>(event: InputEvent<T>) -> Option<i64> {
    match event {
        InputEvent::PointerDown { id, .. } => Some(id.0 as i64),
        InputEvent::Key { key: Key::Char(character), .. } => Some(character as i64),
        InputEvent::FocusChanged { id: Some(id) } => Some(id.0 as i64),
        InputEvent::FocusChanged { id: None } => Some(0),
        InputEvent::Scroll { id, .. } => Some(id.0 as i64),
        _ => None,
    }
}

/// Whether an offset is shown as one word, if there is one.
pub open spec fn shown_in_one_word<T: Display>(event: InputEvent<T>) -> bool {
    event matches InputEvent::Scroll { offset, .. } ==> forall|shown: String| #[trigger]
        to_string_from_display_ensures::<T>(&offset, shown) ==> words_in(shown@).len() == 1
}

/// Whether a text is how the offset of an event is shown, if it has one.
pub open spec fn shows<T: Display>(event: InputEvent<T>, shown: Seq<char>) -> bool {
    event matches InputEvent::Scroll { offset, .. } ==> exists|text: String| #[trigger]
        to_string_from_display_ensures::<T>(&offset, text) && text@ == shown
}

proof fn lemma_variant_names()
    ensures
        input_fields("Click"@) == Some(seq![Ty::Int]),
        input_fields("Typed"@) == Some(seq![Ty::Int]),
        input_fields("Focus"@) == Some(seq![Ty::Int]),
        input_fields("Backspace"@) == Some(Seq::<Ty>::empty()),
        input_fields("Enter"@) == Some(Seq::<Ty>::empty()),
        input_fields("Escape"@) == Some(Seq::<Ty>::empty()),
        input_fields("Scrolled"@) == Some(seq![Ty::Int, Ty::Float]),
{
    reveal_strlit("Click");
    reveal_strlit("Typed");
    reveal_strlit("Focus");
    reveal_strlit("Backspace");
    reveal_strlit("Enter");
    reveal_strlit("Escape");
    reveal_strlit("Scrolled");
    assert("Click"@[0] == 'C' && "Typed"@[0] == 'T' && "Focus"@[0] == 'F');
    assert("Backspace"@[0] == 'B' && "Enter"@[1] == 'n' && "Escape"@[1] == 's');
    assert("Enter"@[0] == 'E' && "Escape"@[0] == 'E' && "Scrolled"@[0] == 'S');
}

/// Every message names a variant of the input type. Whatever number it carries
/// first reads back, and it has a word for each field of the variant: an offset
/// is as many words as it is shown in.
pub proof fn every_message_names_a_variant<T: Display>(event: InputEvent<T>, text: Seq<char>)
    requires
        spells(event, Some(text)),
    ensures
        ({
            let parts = words_in(text);
            &&& parts.len() > 0
            &&& parts[0] == variant_of(event)
            &&& input_fields(parts[0]) matches Some(fields) && {
                &&& fields.len() > 0 <==> number_of(event) is Some
                &&& fields.len() > 0 ==> parts.len() > 1 && int_in(parts[1]) == number_of(event)
                &&& if event is Scroll {
                    exists|shown: Seq<char>| #[trigger]
                        shows(event, shown) && parts.skip(2) == words_in(shown)
                } else {
                    parts.len() == 1 + fields.len()
                }
            }
        }),
{
    lemma_variant_names();
    match event {
        InputEvent::PointerDown { id, .. } => {
            an_event_reads_back_as_its_id(id.0);
        },
        InputEvent::Key { key: Key::Char(character), .. } => {
            a_typed_character_reads_back(character);
        },
        InputEvent::FocusChanged { id: Some(id) } => {
            an_event_reads_back_as_its_id(id.0);
        },
        InputEvent::FocusChanged { id: None } => {
            an_event_reads_back_as_its_id(0);
        },
        InputEvent::Scroll { id, offset } => {
            let shown = choose|shown: String|
                #[trigger] to_string_from_display_ensures::<T>(&offset, shown) && Some(text)
                    == Some("Scrolled "@ + decimal(id.0 as int) + " "@ + shown@);
            a_scroll_reads_back(id.0, shown@);
            assert(shows(event, shown@));
            assert(words_in(text).skip(2) =~= words_in(shown@));
        },
        _ => {
            a_bare_key_is_one_word();
        },
    }
}

proof fn lemma_word_per_field<T: Display>(event: InputEvent<T>, text: Seq<char>)
    requires
        spells(event, Some(text)),
        shown_in_one_word(event),
    ensures
        ({
            let parts = words_in(text);
            &&& parts.len() > 0
            &&& parts[0] == variant_of(event)
            &&& input_fields(parts[0]) matches Some(fields) && parts.len() == 1 + fields.len()
            &&& parts.len() > 1 ==> int_in(parts[1]) is Some
            &&& parts.len() > 2 ==> event is Scroll
        }),
{
    lemma_variant_names();
    every_message_names_a_variant(event, text);
    let parts = words_in(text);
    if event is Scroll {
        let shown = choose|shown: Seq<char>| #[trigger]
            shows(event, shown) && parts.skip(2) == words_in(shown);
        assert(parts.skip(2).len() == 1);
    }
}

/// Every message names a variant of the input type and gives it as many words
/// as it has fields, wherever an offset is shown as one word.
pub proof fn every_message_is_a_variant_and_its_fields<T: Display>(
    event: InputEvent<T>,
    text: Seq<char>,
)
    requires
        spells(event, Some(text)),
        shown_in_one_word(event),
    ensures
        words_in(text).len() > 0,
        words_in(text)[0] == variant_of(event),
        input_fields(words_in(text)[0]) matches Some(fields) && words_in(text).len() == 1
            + fields.len(),
{
    lemma_word_per_field(event, text);
}

/// Whether a sum is the platform's input type: it has every variant, and each
/// carries what it should.
pub open spec fn declares_input(def: SumDef) -> bool {
    forall|name: Seq<char>| #[trigger]
        input_fields(name) matches Some(types) ==> (variant_named(def, name, 0) matches Some(v)
            && def.variants@[v as int].fields@.len() == types.len() && forall|i: int|
            0 <= i < types.len() ==> (#[trigger] def.variants@[v as int].fields@[i]).1
                == types[i])
}

/// The encoder accepts every message, in a program that has the input type,
/// wherever an offset is shown as one word that reads as a number.
pub proof fn the_encoder_accepts_every_message<T: Display>(
    hir: Hir,
    id: SumId,
    event: InputEvent<T>,
    text: Seq<char>,
    floats: Seq<Option<u64>>,
)
    requires
        spells(event, Some(text)),
        shown_in_one_word(event),
        declares_input(hir.sums@[id.0 as int]),
        event is Scroll ==> float_at(floats, 2) is Some,
    ensures
        message_bytes(hir, Ty::Sum(id), text, floats) is Ok,
{
    lemma_word_per_field(event, text);
    let parts = words_in(text);
    let args = parts.skip(1);
    let def = hir.sums@[id.0 as int];
    let types = input_fields(parts[0])->Some_0;
    let v = variant_named(def, parts[0], 0)->Some_0;
    let fields = def.variants@[v as int].fields@;
    if types.len() > 0 {
        assert(args[0] == parts[1]);
        assert(fields[0].1 == types[0]);
        let none = fields_bytes(v as u32, fields, args, floats, 0);
        assert(none is Ok);
        assert(fields_bytes(v as u32, fields, args, floats, 1) is Ok);
    }
    if types.len() > 1 {
        assert(fields[1].1 == types[1]);
        assert(fields_bytes(v as u32, fields, args, floats, 2) is Ok);
    }
}

/// An actor is told what was clicked and not where, and which key was pressed
/// and not who had focus.
pub proof fn a_message_says_no_more_than_its_variant<T: Display>(
    id: HitId,
    x: T,
    y: T,
    other_x: T,
    other_y: T,
    other: HitId,
    key: Key,
    text: Option<Seq<char>>,
)
    ensures
        spells(InputEvent::PointerDown { id, x, y }, text) == spells(
            InputEvent::PointerDown { id, x: other_x, y: other_y },
            text,
        ),
        spells(InputEvent::<T>::Key { id, key }, text) == spells(
            InputEvent::<T>::Key { id: other, key },
            text,
        ),
{
}

} // verus!
