# bacr8

Typed BACnet datatypes and service bodies with symmetric wire encode/decode,
verified with Verus.

- `src/encoding/` — the tag-length-value wire format: tag headers and
  constructed blocks (`tag`), big-endian numbers (`number`), primitive values
  (`primitive`) and generic facts about encoders and list decoders (`codec`).
- `src/object.rs`, `src/property.rs` — object identifiers, event states and
  application-tagged property values.
- `src/datatypes/` — dates and times, calendar entries, schedules, recipient
  lists, address bindings and COV subscriptions.
- `src/service/` — SubscribeCOV, UnconfirmedCOVNotification, AcknowledgeAlarm,
  GetEventInformation and ReadRange service bodies.

Every decoder is specified by a spec function that says what the octets mean
(`parse_*`), every encoder by one that says what it appends (`*_bytes`), and
the round-trip lemmas (`lemma_*`) prove that decoding an encoding gives the
value back. REAL and DOUBLE values are carried as their IEEE-754 bit patterns
(`f32::to_bits`, `f64::to_bits`).
