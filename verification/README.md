# exchange

A limit order book exchange, verified with Verus.

- `src/` is the verified library: the matching engine's order book
  (`orderbook`, with price ladders in `price_ladder` and decimal text in
  `decimal`), the websocket server's users and subscription registry
  (`user`, `subscription_manager`), the API's authentication decisions
  (`auth`) and session cookie (`cookies`), its engine requests and replies (`services`), the exchange of
  one request with the engine over Redis (`engine_exchange`), the database
  processor's decisions (`db_processor`), random identifiers (`random_id`)
  and the messages between the services (`api_messages`,
  `engine_messages`, `ws_messages`).
- `app/` holds the services around it: the HTTP API (axum), the websocket
  server (warp), the database processor (diesel), the Redis calls, and the
  JSON forms of the messages.
- `tests/` runs the library on concrete values.

Not in this code base, and so not here: the matching engine's `Engine`
(its balances and its main loop) and its Redis link, the token signing and
checking of the API (the API takes them through its `TokenService` trait),
the rules of the signup and login forms, and the database models, which
`app/` rebuilds from the schema.
