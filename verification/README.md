# gall_rs

A small HTTP/1.1 web application server. The library (`src/`) holds the
logic, each function with a contract that Verus proves:

- `parse`: request lines, header lines, URL-encoded and multipart forms,
  and how many body bytes a request still needs;
- `form_data`: multipart bodies as a client writes them, and the proof
  that such a body is read back as the field it carries;
- `cookie`: reading the `Cookie` header and setting `Set-Cookie`;
- `response`: content types, status lines and the bytes of a response;
- `router`: path cleaning and which page or action answers a request;
- `accounts`: field-length rules, password hashes and login tokens;
- `string_map`, `seqs`, `chars`, `numbers`: the map, text and number
  primitives these rest on;
- `trusted`: the few calls into std, `bstr` and `sha2` whose contracts are
  believed rather than proved.

`app/` is the program around it: sockets, threads, the SQLite account
store (`rusqlite`, `r2d2`), templates (`tera`) and static files.
