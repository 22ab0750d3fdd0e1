# recipe_pipeline

A crawler for a recipe site, built as four programs that talk through a message
broker: a web page where the user starts a crawl, a loader that downloads pages,
a parser that reads recipes and new links out of them, and a store that keeps the
recipes.

The decisions of these programs live in a library that Verus verifies (`src/`):

- `text`, `numbers`, `paths`: clean-up of scraped text, integer parsing with the
  rules of `str::parse`, file names and extensions of paths.
- `links`: the links of a page that a crawl follows (`LinkParser::parse_links`),
  over URLs parsed by the `url` crate and anchors found by the `select` crate.
- `elementaree`: reading a recipe (title, ingredients, steps, picture) out of a
  page of the site, over XPath evaluation by `sxd_xpath` and regular
  expressions by `regex`.
- `messages`: the messages between the programs, the requests typed on the web
  page and what the web server does for each of them.
- `loader`, `fileio`, `queue`: where pages are kept on disk, the numbers typed
  at a prompt, and queues of the broker.

Each public function states its result in its `ensures` clause; the `law_*`
proof functions state properties that span several calls.

`app/` holds the programs themselves: the connections to Redis, RabbitMQ,
InfluxDB and MongoDB, the HTTP and websocket servers, and the loops that hand
messages to the library. Run it with one of `load`, `parse`, `store` or `web`.
