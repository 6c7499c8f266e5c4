# exchange

A continuous limit-order-book exchange written in Verus: the matching engine,
the client-side mirror of a book, the decisions of the server and of a
market-making bot, all with contracts that Verus proves.

`src/` is the verified library:

- `types`, `protocol`: orders, sides and the messages between clients, the
  server and its exchanges.
- `book`: the order book (price levels in price order, a FIFO queue per
  level) and its model, with the laws of the book.
- `exchange`: the matching engine, its model (`ExchangeView::step`) and its
  laws: matching leaves a well-formed book that is not crossed, makes only
  fair trades, and an incoming order is the aggressor of every trade it
  sets off.
- `client`, `mirror`: a client's mirror of each exchange, and the law that a
  mirror fed the public events of an exchange stays a copy of its book.
- `server`: the operator's commands, the server's paused/running states, the
  greeting of a connection and the numbering of events.
- `text`: whitespace splitting and decimal parsing on characters.
- `ladder`, `trader`: what a trading screen shows and what a typed command
  does.
- `bot`: the market-making bot's requote.

`app/` holds the programs around it (the websocket server, the bots and a
terminal trading screen); `tests/` runs the library on concrete values.
