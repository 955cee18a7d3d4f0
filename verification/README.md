# lazykatok

The logic of a local-first KakaoTalk terminal client, verified with Verus.

The client follows the messages of a KakaoTalk installation, keeps them in a local archive, shows
one conversation in the terminal and sends the replies that are typed there. Everything that is
decided on the way stands in `src/` with a contract that Verus proves: what counts as a new
message, how a line wraps, which rows have to be drawn again, what a key does, which chat a number
picks, when a send may start and what counts as delivered.

- `src/` is the library. `src/lib.rs` lists its modules.
- `tests/` runs it, together with the crates that it calls.
- `app/` is the client around it: arguments, terminal, files, databases, threads and programs. The
  archive, the search indexes and the macOS reader are supplied through `app/backend.rs`.

## What is promised

- A poll announces exactly the messages that are new or edited since the last one, in send order;
  the first poll is quiet unless a replay is asked for, and a chat filter only hides.
- Whatever was received or typed, nothing that is shown holds a control character.
- A view that is scrolled up stays where it is while messages arrive, and the line being typed is
  never touched by them. A full history gives up its oldest entry for a new one; only a view of
  that entry, or of the one drawn as following it, changes then.
- The date is put above the first message of a new day, also behind a status line. Messages are
  drawn without colours.
- The list of chats ends with the newest, which has the number one; chats without a time stand at
  its top by name.
- A paste never submits. At most one send is under way, and a line submitted meanwhile is kept.
- A terminal that was drawn once is brought up to date by drawing the rows that changed.
- Nothing is sent without the accepted policy, to a room that is not the only one meant, or over a
  draft. A text is checked before the program is looked for, and submitted at most once, after its
  window, its wording and the owner of the compose box were confirmed; a delivery counts only when
  a new message shows it.
- Every listed room counts as read or as locked, and every message read is one of a listed room.
- Deletions are not reconciled against a source of which rooms could not be read.

## What is trusted

Calls into other crates and into parts of the standard library stand behind small wrappers, each
with a comment on what is claimed of it: times and their texts (`chrono`), column widths
(`unicode-width`), digests (`sha2`), block decryption (`aes`), JSON lookups (`serde_json`), and
`String::push`, `String::from_utf8_lossy`, `String::from_utf16` and `str::to_lowercase`.
