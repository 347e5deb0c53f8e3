# rust_messenger

The decision logic of a websocket messaging server backed by a Firebase
database, as a library whose functions carry contracts and proofs.

- `src/` is the verified library: the JSON records that the database stores
  (`message`, each text written as a JSON string), the requests it is sent and what its answers come to
  (`db`, `users`, `threads`), the newest-first ordering of conversations and
  messages (`recency`), JSON values as plain data (`json`, where serde_json
  reads and writes the text), and the request protocol (`protocol`): a
  session that, given a request from the frontend, says step by step which
  database request to make, which message to decode and which live update
  to deliver, until it replies. A message is stored only in a conversation
  whose participants are on record; a conversation is created only where
  none between the same users exists; pages of conversations and of
  messages are taken by position (newest first for conversations, oldest
  first for messages, each page shown newest first).
- `app/` is the server around it: the websocket loop, the Firebase client,
  serde's derives, and the driver that performs each step of a session.
- `tests/` runs the library on concrete requests and answers.
